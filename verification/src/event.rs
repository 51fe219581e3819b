//! What a hand reports while it is played.
//!
//! The events name seats, not players. Two of their fields are secret and must
//! be held back from clients: the cards of [`EngineEvent::HoleCardsDealt`] and
//! the seed of [`EngineEvent::HandStarted`], which is the key of the shuffle.

use crate::action::PlayerAction;
use crate::card::Card;
use crate::game::{HandResult, ResultModel};
use crate::hand::Street;
use crate::rng::DeckSeed;
use crate::sidepot::{PotModel, SidePot};
use crate::sidepot;
use vstd::prelude::*;

verus! {

/// A change of a hand that others can observe.
#[derive(Debug)]
pub enum EngineEvent {
    /// The hand begins. Comes before everything else.
    HandStarted {
        dealer_seat: u8,
        sb_seat: u8,
        bb_seat: u8,
        big_blind: u64,
        small_blind: u64,
        /// Who must straddle, where somebody must.
        straddle_seat: Option<u8>,
        /// The straddle, where there is one.
        straddle_amount: Option<u64>,
        /// The key of the shuffle. Secret.
        deck_seed: DeckSeed,
    },
    /// A seat was dealt its hole cards, which are secret. Hands whose cards are
    /// dealt elsewhere report nothing of the kind.
    HoleCardsDealt { seat: u8, cards: [Card; 2] },
    /// Community cards were dealt.
    StreetRevealed {
        street: Street,
        new_cards: Vec<Card>,
        current_bet: u64,
        /// The least raise; `None` where nobody can bet.
        min_raise_to: Option<u64>,
        /// Who acts first; `None` where nobody can.
        next_actor_seat: Option<u8>,
    },
    /// An action was taken, or a blind posted.
    ActionApplied {
        seat: u8,
        action: PlayerAction,
        /// The chips that it moved.
        contributed: u64,
        /// The bet after it.
        current_bet: u64,
        /// The least raise after it; `None` where there is none.
        min_raise_to: Option<u64>,
        /// Who acts next; `None` where nobody does.
        next_actor_seat: Option<u8>,
        /// The action's number in the hand.
        action_seq: u16,
    },
    /// The pots have changed.
    PotUpdated {
        pot: u64,
        side_pots: Vec<SidePot>,
        /// Whether somebody is all in.
        has_all_in: bool,
    },
    /// The hand was settled.
    HandFinished { result: HandResult },
}

/// An event as a mathematical value.
#[verifier::ext_equal]
pub enum EventModel {
    HandStarted {
        dealer_seat: u8,
        sb_seat: u8,
        bb_seat: u8,
        big_blind: u64,
        small_blind: u64,
        straddle_seat: Option<u8>,
        straddle_amount: Option<u64>,
        deck_seed: DeckSeed,
    },
    HoleCardsDealt { seat: u8, cards: Seq<Card> },
    StreetRevealed {
        street: Street,
        new_cards: Seq<Card>,
        current_bet: u64,
        min_raise_to: Option<u64>,
        next_actor_seat: Option<u8>,
    },
    ActionApplied {
        seat: u8,
        action: PlayerAction,
        contributed: u64,
        current_bet: u64,
        min_raise_to: Option<u64>,
        next_actor_seat: Option<u8>,
        action_seq: u16,
    },
    PotUpdated { pot: u64, side_pots: Seq<PotModel>, has_all_in: bool },
    HandFinished { result: ResultModel },
}

impl View for EngineEvent {
    type V = EventModel;

    open spec fn view(&self) -> EventModel {
        match *self {
            EngineEvent::HandStarted {
                dealer_seat,
                sb_seat,
                bb_seat,
                big_blind,
                small_blind,
                straddle_seat,
                straddle_amount,
                deck_seed,
            } => EventModel::HandStarted {
                dealer_seat,
                sb_seat,
                bb_seat,
                big_blind,
                small_blind,
                straddle_seat,
                straddle_amount,
                deck_seed,
            },
            EngineEvent::HoleCardsDealt { seat, cards } => EventModel::HoleCardsDealt {
                seat,
                cards: cards@,
            },
            EngineEvent::StreetRevealed {
                street,
                new_cards,
                current_bet,
                min_raise_to,
                next_actor_seat,
            } => EventModel::StreetRevealed {
                street,
                new_cards: new_cards@,
                current_bet,
                min_raise_to,
                next_actor_seat,
            },
            EngineEvent::ActionApplied {
                seat,
                action,
                contributed,
                current_bet,
                min_raise_to,
                next_actor_seat,
                action_seq,
            } => EventModel::ActionApplied {
                seat,
                action,
                contributed,
                current_bet,
                min_raise_to,
                next_actor_seat,
                action_seq,
            },
            EngineEvent::PotUpdated { pot, side_pots, has_all_in } => EventModel::PotUpdated {
                pot,
                side_pots: sidepot::pots_view(side_pots@),
                has_all_in,
            },
            EngineEvent::HandFinished { result } => EventModel::HandFinished { result: result@ },
        }
    }
}

impl Clone for EngineEvent {
    fn clone(&self) -> (r: Self)
        ensures
            r@ == self@,
    {
        match self {
            EngineEvent::HandStarted {
                dealer_seat,
                sb_seat,
                bb_seat,
                big_blind,
                small_blind,
                straddle_seat,
                straddle_amount,
                deck_seed,
            } => EngineEvent::HandStarted {
                dealer_seat: *dealer_seat,
                sb_seat: *sb_seat,
                bb_seat: *bb_seat,
                big_blind: *big_blind,
                small_blind: *small_blind,
                straddle_seat: *straddle_seat,
                straddle_amount: *straddle_amount,
                deck_seed: *deck_seed,
            },
            EngineEvent::HoleCardsDealt { seat, cards } => EngineEvent::HoleCardsDealt {
                seat: *seat,
                cards: *cards,
            },
            EngineEvent::StreetRevealed {
                street,
                new_cards,
                current_bet,
                min_raise_to,
                next_actor_seat,
            } => {
                let cards = new_cards.clone();
                assert(cards@ =~= new_cards@);
                EngineEvent::StreetRevealed {
                    street: *street,
                    new_cards: cards,
                    current_bet: *current_bet,
                    min_raise_to: *min_raise_to,
                    next_actor_seat: *next_actor_seat,
                }
            },
            EngineEvent::ActionApplied {
                seat,
                action,
                contributed,
                current_bet,
                min_raise_to,
                next_actor_seat,
                action_seq,
            } => EngineEvent::ActionApplied {
                seat: *seat,
                action: *action,
                contributed: *contributed,
                current_bet: *current_bet,
                min_raise_to: *min_raise_to,
                next_actor_seat: *next_actor_seat,
                action_seq: *action_seq,
            },
            EngineEvent::PotUpdated { pot, side_pots, has_all_in } => {
                let pots = side_pots.clone();
                assert(sidepot::pots_view(pots@) =~= sidepot::pots_view(side_pots@));
                EngineEvent::PotUpdated { pot: *pot, side_pots: pots, has_all_in: *has_all_in }
            },
            EngineEvent::HandFinished { result } => EngineEvent::HandFinished {
                result: result.clone(),
            },
        }
    }
}

/// The mathematical values of a list of events.
pub open spec fn events_view(s: Seq<EngineEvent>) -> Seq<EventModel> {
    Seq::new(s.len(), |i: int| s[i]@)
}

} // verus!
