//! Betting actions and their records.

use crate::hand::Street;
use crate::player::{Chips, PlayerId};
use vstd::prelude::*;

verus! {

/// The kind of a forced bet.
#[derive(Debug, Clone, Copy, PartialEq, Eq, Structural, Hash)]
pub enum BlindKind {
    Small,
    Big,
    Straddle,
}

/// A betting action.
#[derive(Debug, Clone, Copy, PartialEq, Eq, Structural)]
pub enum PlayerAction {
    /// Give up the hand.
    Fold,
    /// Pass, where there is nothing to call.
    Check,
    /// Match the current bet.
    Call,
    /// Raise the bet to `amount` in all, not by `amount`.
    Raise { amount: Chips },
    /// Commit the whole stack.
    AllIn,
    /// A forced bet; no player chooses it.
    Blind { kind: BlindKind, amount: Chips },
}

impl PlayerAction {
    pub fn is_all_in(&self) -> (r: bool)
        ensures
            r == (*self is AllIn),
    {
        matches!(self, PlayerAction::AllIn)
    }

    pub fn is_raise(&self) -> (r: bool)
        ensures
            r == (*self is Raise),
    {
        matches!(self, PlayerAction::Raise { .. })
    }

    pub fn is_fold(&self) -> (r: bool)
        ensures
            r == (*self is Fold),
    {
        matches!(self, PlayerAction::Fold)
    }
}

/// One action of a hand, with the chips around it.
#[derive(Debug, Clone, Copy, PartialEq, Eq)]
pub struct ActionRecord {
    /// The action's number in the hand, from zero; it stops at the largest `u16`.
    pub seq: u16,
    /// The street it was taken on.
    pub street: Street,
    /// Who took it.
    pub player_id: PlayerId,
    /// What was done.
    pub action: PlayerAction,
    /// The chips that it committed.
    pub amount: Chips,
    /// The player's stack before it.
    pub stack_before: Chips,
    /// The player's stack after it.
    pub stack_after: Chips,
    /// The whole pot before it.
    pub pot_before: Chips,
    /// The whole pot after it.
    pub pot_after: Chips,
}

/// Why an action was refused.
#[derive(Debug, Clone, Copy, PartialEq, Eq, Structural)]
#[non_exhaustive]
pub enum ActionError {
    /// It is another player's turn, or nobody's.
    NotYourTurn,
    /// The action is not open to the player now.
    InvalidAction,
    /// The raise is smaller than the least raise.
    BelowMinRaise,
    /// The player takes no part in the hand.
    NotInHand,
    /// The hand is over.
    HandFinished,
    /// The hand has not begun.
    HandNotStarted,
    /// The request names another hand.
    StaleHand,
    /// The request names another street.
    StaleStreet,
    /// The request carries another sequence number.
    OutOfSequence,
    /// The all-in amount is not the player's stack.
    InvalidAllInAmount,
    /// The player has folded.
    AlreadyFolded,
    /// A player cannot choose to straddle.
    StraddleNotSupported,
}

impl ActionError {
    /// The text of [`ActionError::to_string`].
    pub open spec fn message(self) -> &'static str {
        match self {
            ActionError::NotYourTurn => "not your turn",
            ActionError::InvalidAction => "invalid action",
            ActionError::BelowMinRaise => "raise amount below minimum",
            ActionError::NotInHand => "player not in hand",
            ActionError::HandFinished => "hand already finished",
            ActionError::HandNotStarted => "hand not started",
            ActionError::StaleHand => "stale hand reference",
            ActionError::StaleStreet => "stale street reference",
            ActionError::OutOfSequence => "action out of sequence",
            ActionError::InvalidAllInAmount => "invalid all-in amount",
            ActionError::AlreadyFolded => "player has folded",
            ActionError::StraddleNotSupported => "straddle is not supported in M1",
        }
    }

    /// The error in words.
    pub fn to_string(&self) -> (s: String)
        ensures
            s@ == self.message()@,
    {
        let text: &'static str = match self {
            ActionError::NotYourTurn => "not your turn",
            ActionError::InvalidAction => "invalid action",
            ActionError::BelowMinRaise => "raise amount below minimum",
            ActionError::NotInHand => "player not in hand",
            ActionError::HandFinished => "hand already finished",
            ActionError::HandNotStarted => "hand not started",
            ActionError::StaleHand => "stale hand reference",
            ActionError::StaleStreet => "stale street reference",
            ActionError::OutOfSequence => "action out of sequence",
            ActionError::InvalidAllInAmount => "invalid all-in amount",
            ActionError::AlreadyFolded => "player has folded",
            ActionError::StraddleNotSupported => "straddle is not supported in M1",
        };
        String::from_str(text)
    }
}

} // verus!
