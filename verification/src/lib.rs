//! A Texas Hold'em engine whose rules are proved.
//!
//! Given a list of players, a button position and a source of cards,
//! [`game::GameHand`] plays one hand from the blinds to the settled pots. The
//! crate does no I/O. Every function carries a contract, and the contracts of
//! the hand are stated over mathematical models of its state (see
//! [`game::model`]). What the library promises of a whole hand (that chips are
//! neither made nor lost, that a hand can be played again from its records,
//! that a preview tells the truth, that sealed cards stay sealed) is proved in
//! [`game::laws`] and [`game::account_laws`].
//!
//! What the rules of the game come to is told by the seats, the chips and the
//! cards alone: who posts, whose turn it is and how streets follow in
//! [`game::table_laws`], what an action does in [`game::action_laws`], what the
//! records and the events say in [`game::record_laws`] and
//! [`game::event_laws`], which cards are taken and shown in
//! [`game::card_laws`], and who gets which chips in [`game::showdown_laws`] and
//! [`game::share_laws`].

pub mod action;
pub mod card;
pub mod deck;
pub mod eval;
pub mod event;
pub mod game;
pub mod hand;
pub mod player;
pub mod rng;
pub mod round;
pub mod seqs;
pub mod sidepot;
pub mod telling;
pub mod text;

pub use action::{ActionError, ActionRecord, BlindKind, PlayerAction};
pub use card::{Card, Rank, Suit};
pub use deck::Deck;
pub use eval::{describe_hand, rank_hand, rank_players, HandRank, RankDescription};
pub use event::EngineEvent;
pub use game::{
    blind_positions, BlindFinishError, BlindInjectError, GameHand, GameSnapshot, HandResult,
    HandSeat, HoleSlot,
};
pub use hand::{BoardCards, HoleCards, Street};
pub use player::{Chips, PlayerId, Position, Seat};
pub use rng::{DeckSeed, PokerRng};
pub use round::{BettingRound, SidePot};
