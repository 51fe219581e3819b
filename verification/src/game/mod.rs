//! A hand of Texas Hold'em from the blinds to the settled pots.

use crate::action::{ActionRecord, PlayerAction};
use crate::deck::Deck;
use crate::eval::HandRank;
use crate::event::EngineEvent;
use crate::hand::{BoardCards, HoleCards, Street};
use crate::player::{Chips, PlayerId};
use crate::rng::DeckSeed;
use crate::round::{BettingRound, SidePot};
use crate::sidepot::PotModel;
use crate::sidepot;
use std::collections::HashMap;
use vstd::prelude::*;

pub mod account_laws;
pub mod action_laws;
pub mod actions;
pub mod blind_laws;
pub mod card_laws;
pub mod errors;
pub mod event_laws;
pub mod finish;
pub mod invariants;
pub mod laws;
pub mod model;
pub mod outcome;
pub mod pots;
pub mod record_laws;
pub mod share_laws;
pub mod showdown_laws;
pub mod start;
pub mod streets;
pub mod table_laws;

pub use errors::{BlindFinishError, BlindInjectError};

verus! {

/// What the engine knows of a seat's hole cards.
#[derive(Debug, Clone, Copy, PartialEq, Eq, Structural)]
pub enum HoleSlot {
    /// Not dealt yet.
    Empty,
    /// Dealt by the engine, which knows them.
    Plain(HoleCards),
    /// Dealt elsewhere; the engine does not know them.
    Opaque,
    /// Dealt elsewhere and shown at the showdown.
    Revealed(HoleCards),
}

impl HoleSlot {
    /// The cards, where they are known.
    pub open spec fn known(self) -> Option<HoleCards> {
        match self {
            HoleSlot::Plain(h) => Some(h),
            HoleSlot::Revealed(h) => Some(h),
            HoleSlot::Empty => None,
            HoleSlot::Opaque => None,
        }
    }

    /// The cards, where they are known.
    pub fn plaintext(self) -> (r: Option<HoleCards>)
        ensures
            r == self.known(),
    {
        match self {
            HoleSlot::Plain(h) => Some(h),
            HoleSlot::Revealed(h) => Some(h),
            HoleSlot::Empty => None,
            HoleSlot::Opaque => None,
        }
    }

    pub fn is_opaque(self) -> (r: bool)
        ensures
            r == (self is Opaque),
    {
        matches!(self, HoleSlot::Opaque)
    }
}

/// A player's seat in a hand.
#[derive(Debug, Clone, Copy)]
pub struct HandSeat {
    pub player_id: PlayerId,
    /// The stack before the blinds.
    pub starting_stack: Chips,
    /// The stack now.
    pub stack: Chips,
    pub hole: HoleSlot,
    pub folded: bool,
    pub all_in: bool,
    /// The seat's number at the table.
    pub seat: u8,
}

impl HandSeat {
    /// The seat's cards, where they are known.
    pub fn hole_cards(&self) -> (r: Option<HoleCards>)
        ensures
            r == self.hole.known(),
    {
        self.hole.plaintext()
    }
}

/// A player's share of a pot.
#[derive(Debug, Clone, Copy, PartialEq, Eq)]
pub struct PotWinner {
    pub player_id: PlayerId,
    pub amount_won: Chips,
}

/// How a pot was settled.
#[derive(Debug, PartialEq, Eq)]
pub struct PotResult {
    /// The pot's place, the main pot first.
    pub index: usize,
    /// The chips in it.
    pub amount: Chips,
    /// Who contested it.
    pub eligible_player_ids: Vec<PlayerId>,
    /// Who got what of it.
    pub winners: Vec<PotWinner>,
    /// Whether it went back to its givers.
    pub is_refund: bool,
}

/// A settled pot as a mathematical value.
#[verifier::ext_equal]
pub struct PotResultModel {
    pub index: int,
    pub amount: Chips,
    pub eligible_player_ids: Seq<PlayerId>,
    pub winners: Seq<PotWinner>,
    pub is_refund: bool,
}

impl View for PotResult {
    type V = PotResultModel;

    open spec fn view(&self) -> PotResultModel {
        PotResultModel {
            index: self.index as int,
            amount: self.amount,
            eligible_player_ids: self.eligible_player_ids@,
            winners: self.winners@,
            is_refund: self.is_refund,
        }
    }
}

impl Clone for PotResult {
    fn clone(&self) -> (r: Self)
        ensures
            r@ == self@,
    {
        PotResult {
            index: self.index,
            amount: self.amount,
            eligible_player_ids: self.eligible_player_ids.clone(),
            winners: self.winners.clone(),
            is_refund: self.is_refund,
        }
    }
}

/// The mathematical values of a list of settled pots.
pub open spec fn results_view(s: Seq<PotResult>) -> Seq<PotResultModel> {
    Seq::new(s.len(), |i: int| s[i]@)
}

/// A hand shown down.
#[derive(Debug)]
pub struct ShowdownEntry {
    pub player_id: PlayerId,
    pub hole_cards: HoleCards,
    pub rank: HandRank,
    /// The name of the rank's category.
    pub rank_name: String,
}

/// A hand shown down, as a mathematical value.
#[verifier::ext_equal]
pub struct ShowdownModel {
    pub player_id: PlayerId,
    pub hole_cards: HoleCards,
    pub rank: HandRank,
    pub rank_name: Seq<char>,
}

impl View for ShowdownEntry {
    type V = ShowdownModel;

    open spec fn view(&self) -> ShowdownModel {
        ShowdownModel {
            player_id: self.player_id,
            hole_cards: self.hole_cards,
            rank: self.rank,
            rank_name: self.rank_name@,
        }
    }
}

impl Clone for ShowdownEntry {
    fn clone(&self) -> (r: Self)
        ensures
            r@ == self@,
    {
        ShowdownEntry {
            player_id: self.player_id,
            hole_cards: self.hole_cards,
            rank: self.rank,
            rank_name: self.rank_name.clone(),
        }
    }
}

/// The mathematical values of a showdown.
pub open spec fn showdown_view(s: Seq<ShowdownEntry>) -> Seq<ShowdownModel> {
    Seq::new(s.len(), |i: int| s[i]@)
}

/// The outcome of a hand.
#[derive(Debug)]
pub struct HandResult {
    pub deck_seed: DeckSeed,
    pub board: BoardCards,
    pub pots: Vec<PotResult>,
    /// What each player won, by player number.
    pub chips_awarded: HashMap<u64, u32>,
    /// What each player has after the hand, by player number.
    pub final_stacks: HashMap<u64, u32>,
    pub actions: Vec<ActionRecord>,
    pub showdown: Vec<ShowdownEntry>,
    /// The order in which the players show their hands.
    pub show_order: Vec<PlayerId>,
    /// The cards of the players who folded, by player number, where the engine knows them.
    pub folded_hole_cards: HashMap<u64, HoleCards>,
}

/// The outcome of a hand as a mathematical value.
#[verifier::ext_equal]
pub struct ResultModel {
    pub deck_seed: DeckSeed,
    pub board: crate::hand::BoardModel,
    pub pots: Seq<PotResultModel>,
    pub chips_awarded: Map<u64, u32>,
    pub final_stacks: Map<u64, u32>,
    pub actions: Seq<ActionRecord>,
    pub showdown: Seq<ShowdownModel>,
    pub show_order: Seq<PlayerId>,
    pub folded_hole_cards: Map<u64, HoleCards>,
}

impl View for HandResult {
    type V = ResultModel;

    open spec fn view(&self) -> ResultModel {
        ResultModel {
            deck_seed: self.deck_seed,
            board: self.board@,
            pots: results_view(self.pots@),
            chips_awarded: self.chips_awarded@,
            final_stacks: self.final_stacks@,
            actions: self.actions@,
            showdown: showdown_view(self.showdown@),
            show_order: self.show_order@,
            folded_hole_cards: self.folded_hole_cards@,
        }
    }
}

impl Clone for HandResult {
    fn clone(&self) -> (r: Self)
        ensures
            r@ == self@,
    {
        let r = HandResult {
            deck_seed: self.deck_seed,
            board: self.board,
            pots: self.pots.clone(),
            chips_awarded: self.chips_awarded.clone(),
            final_stacks: self.final_stacks.clone(),
            actions: self.actions.clone(),
            showdown: self.showdown.clone(),
            show_order: self.show_order.clone(),
            folded_hole_cards: self.folded_hole_cards.clone(),
        };
        assert(results_view(r.pots@) =~= results_view(self.pots@));
        assert(showdown_view(r.showdown@) =~= showdown_view(self.showdown@));
        r
    }
}

/// The state of a hand as a table shows it.
#[derive(Debug)]
pub struct GameSnapshot {
    pub street: Street,
    pub board: BoardCards,
    /// All the chips in the middle.
    pub pot: Chips,
    pub side_pots: Vec<SidePot>,
    /// Whose turn it is.
    pub current_actor: Option<PlayerId>,
    /// The least raise, where the player whose turn it is may raise.
    pub min_raise_to: Option<Chips>,
    pub current_bet: Chips,
    pub players: Vec<SnapshotPlayer>,
    pub dealer_seat: u8,
}

/// A player as a table shows it.
#[derive(Debug, Clone, Copy)]
pub struct SnapshotPlayer {
    pub player_id: PlayerId,
    pub stack: Chips,
    /// The cards, where the engine knows them.
    pub hole_cards: Option<HoleCards>,
    pub folded: bool,
    pub all_in: bool,
    pub committed_this_street: Chips,
    pub last_action: Option<PlayerAction>,
    pub seat: u8,
}

/// A snapshot as a mathematical value.
#[verifier::ext_equal]
pub struct SnapshotModel {
    pub street: Street,
    pub board: crate::hand::BoardModel,
    pub pot: Chips,
    pub side_pots: Seq<PotModel>,
    pub current_actor: Option<PlayerId>,
    pub min_raise_to: Option<Chips>,
    pub current_bet: Chips,
    pub players: Seq<SnapshotPlayer>,
    pub dealer_seat: u8,
}

impl View for GameSnapshot {
    type V = SnapshotModel;

    open spec fn view(&self) -> SnapshotModel {
        SnapshotModel {
            street: self.street,
            board: self.board@,
            pot: self.pot,
            side_pots: sidepot::pots_view(self.side_pots@),
            current_actor: self.current_actor,
            min_raise_to: self.min_raise_to,
            current_bet: self.current_bet,
            players: self.players@,
            dealer_seat: self.dealer_seat,
        }
    }
}

impl Clone for GameSnapshot {
    fn clone(&self) -> (r: Self)
        ensures
            r@ == self@,
    {
        let r = GameSnapshot {
            street: self.street,
            board: self.board,
            pot: self.pot,
            side_pots: self.side_pots.clone(),
            current_actor: self.current_actor,
            min_raise_to: self.min_raise_to,
            current_bet: self.current_bet,
            players: self.players.clone(),
            dealer_seat: self.dealer_seat,
        };
        assert(sidepot::pots_view(r.side_pots@) =~= sidepot::pots_view(self.side_pots@));
        assert(r.players@ =~= self.players@);
        r
    }
}

/// How far a hand has come.
#[derive(Debug, Clone, Copy, PartialEq, Eq, Structural)]
pub enum Phase {
    NotStarted,
    Betting(Street),
    Done,
}

/// Who deals the cards.
#[derive(Debug, Clone, Copy, PartialEq, Eq, Structural)]
pub enum HandMode {
    /// The engine deals from its deck.
    Plaintext,
    /// The cards are dealt elsewhere; the engine learns the board when it is
    /// shown, and hole cards at the showdown.
    Blind,
}

/// What an action would do, told before it is taken.
#[derive(Debug, Clone, Copy, PartialEq, Eq)]
pub struct ActionTransitionPreview {
    pub stack_before: Chips,
    pub committed_before: Chips,
    pub current_bet_before: Chips,
    pub min_raise_to_before: Option<Chips>,
    pub stack_after: Chips,
    pub committed_after: Chips,
    pub current_bet_after: Chips,
    pub min_raise_to_after: Option<Chips>,
    pub all_in_after: bool,
    /// Whether the action ends the betting round.
    pub round_closed_after: bool,
    pub next_actor: Option<PlayerId>,
    pub next_actor_can_raise_after: bool,
    pub street_after: Street,
    /// Whether no more betting can follow.
    pub betting_terminal_after: bool,
    pub hand_done_after: bool,
}

/// What an action meant for the betting on its street.
#[derive(Debug, Clone, Copy, PartialEq, Eq)]
pub struct StreetActionFact {
    pub player_id: PlayerId,
    pub action: PlayerAction,
    /// Whether it raised the bet.
    pub increased_bet: bool,
    /// Whether it raised the bet by at least a full raise.
    pub full_raise: bool,
}

/// A raise or an all-in.
pub open spec fn aggressive(action: PlayerAction) -> bool {
    action is Raise || action is AllIn
}

impl StreetActionFact {
    /// Whether the action only called: a call, or a raise or all-in that did not raise the bet.
    pub fn is_call_like(&self) -> (r: bool)
        ensures
            r == (self.action is Call || (aggressive(self.action) && !self.increased_bet)),
    {
        matches!(self.action, PlayerAction::Call) || (matches!(
            self.action,
            PlayerAction::Raise { .. } | PlayerAction::AllIn
        ) && !self.increased_bet)
    }

    /// The action as a strategy sees it: a raise or all-in short of a full raise is a call.
    pub open spec fn seen_action(self) -> PlayerAction {
        if aggressive(self.action) && !self.full_raise {
            PlayerAction::Call
        } else {
            self.action
        }
    }

    /// The action as a strategy sees it: a raise or all-in short of a full raise is a call.
    pub fn strategy_action(&self) -> (r: PlayerAction)
        ensures
            r == self.seen_action(),
    {
        if matches!(self.action, PlayerAction::Raise { .. } | PlayerAction::AllIn)
            && !self.full_raise {
            PlayerAction::Call
        } else {
            self.action
        }
    }
}

/// How many community cards a street brings.
pub open spec fn street_cards(street: Street) -> int {
    match street {
        Street::Preflop => 0,
        Street::Flop => 3,
        Street::Turn => 1,
        Street::River => 1,
    }
}

/// How many community cards a street brings.
pub fn cards_for_street(street: Street) -> (n: usize)
    ensures
        n == street_cards(street),
{
    match street {
        Street::Preflop => 0,
        Street::Flop => 3,
        Street::Turn => 1,
        Street::River => 1,
    }
}

/// Where the blinds sit among `n` players with the button at `dealer_idx`: after
/// the button, or on it heads-up. The button wraps round the table.
pub open spec fn blind_seats(dealer_idx: int, n: int) -> (int, int) {
    if n < 2 {
        (0, 0)
    } else if n == 2 {
        (dealer_idx % n, (dealer_idx % n + 1) % n)
    } else {
        ((dealer_idx % n + 1) % n, (dealer_idx % n + 2) % n)
    }
}

/// The places of the small and the big blind.
pub fn blind_positions(dealer_idx: usize, n: usize) -> (r: (usize, usize))
    ensures
        r.0 == blind_seats(dealer_idx as int, n as int).0,
        r.1 == blind_seats(dealer_idx as int, n as int).1,
{
    if n < 2 {
        return (0, 0);
    }
    let d: usize = dealer_idx % n;
    let left: usize = seat_after(d, n);
    if n == 2 {
        (d, left)
    } else {
        (left, seat_after(left, n))
    }
}

/// The place after `i` among `n`.
fn seat_after(i: usize, n: usize) -> (r: usize)
    requires
        i < n,
        n >= 2,
    ensures
        r < n,
        r == (i + 1) % (n as int),
        n > 2 ==> (r + 1) % (n as int) == (i + 2) % (n as int),
{
    proof {
        let w = (i + 1) % (n as int);
        invariants::lemma_wrap(i as int, 1, n as int);
        invariants::lemma_wrap(w, 1, n as int);
        if n > 2 {
            invariants::lemma_wrap(i as int, 2, n as int);
        }
    }
    if i + 1 == n {
        0
    } else {
        i + 1
    }
}

/// A hand of poker.
pub struct GameHand {
    pub(crate) seats: Vec<HandSeat>,
    pub(crate) dealer_idx: usize,
    pub(crate) big_blind: Chips,
    pub(crate) small_blind: Chips,
    /// The straddle that is forced on the player after the big blind.
    pub(crate) forced_straddle: Option<Chips>,
    /// The bet that the first round opened with.
    pub(crate) preflop_bring_in: Chips,
    pub(crate) mode: HandMode,
    pub(crate) deck: Deck,
    pub(crate) deck_seed: DeckSeed,
    pub(crate) board: BoardCards,
    pub(crate) phase: Phase,
    pub(crate) betting_round: Option<BettingRound>,
    /// The chips of the rounds that are over.
    pub(crate) completed_pot: Chips,
    /// The pots of the rounds that are over.
    pub(crate) cumulative_side_pots: Vec<SidePot>,
    pub(crate) actions: Vec<ActionRecord>,
    /// The number of the next action.
    pub(crate) action_seq: u16,
    /// Each player's last action, by player number.
    pub(crate) last_action: HashMap<u64, PlayerAction>,
    /// What has happened since the events were last drained.
    pub(crate) events: Vec<EngineEvent>,
    /// The street whose cards have yet to be shown to the engine.
    pub(crate) pending_board_street: Option<Street>,
    /// The street on which the hand ended.
    pub(crate) finished_street: Option<Street>,
}

} // verus!
