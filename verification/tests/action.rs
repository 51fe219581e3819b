use engine::action::{ActionError, BlindKind, PlayerAction};
use engine::player::Chips;

#[test]
fn player_action_all_in_present() {
    let action = PlayerAction::AllIn;
    assert!(action.is_all_in());
    assert!(!action.is_fold());
}

#[test]
fn player_action_fold() {
    let action = PlayerAction::Fold;
    assert!(action.is_fold());
    assert!(!action.is_all_in());
}

#[test]
fn player_action_match_exhaustive() {
    let actions = [
        PlayerAction::Fold,
        PlayerAction::Check,
        PlayerAction::Call,
        PlayerAction::Raise { amount: Chips(100) },
        PlayerAction::AllIn,
        PlayerAction::Blind {
            kind: BlindKind::Small,
            amount: Chips(10),
        },
    ];
    for action in &actions {
        match action {
            PlayerAction::Fold => {}
            PlayerAction::Check => {}
            PlayerAction::Call => {}
            PlayerAction::Raise { .. } => {}
            PlayerAction::AllIn => {}
            PlayerAction::Blind { .. } => {}
        }
    }
}

#[test]
fn action_error_display() {
    let e = ActionError::NotYourTurn;
    assert!(!e.to_string().is_empty());
}
