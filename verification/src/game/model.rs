//! A hand as a mathematical value, and what each step makes of it.
//!
//! The functions here say what a hand is after the blinds, after an action,
//! after a street, and what its outcome is. The executable methods of
//! [`super::GameHand`] are proved to do exactly that.

use super::{
    ActionTransitionPreview, BlindInjectError, GameHand, HandMode, HandSeat, HoleSlot, Phase,
    SnapshotModel, SnapshotPlayer, StreetActionFact,
};
use crate::action::{ActionError, ActionRecord, BlindKind, PlayerAction};
use crate::card::Card;
use crate::deck::DeckModel;
use crate::event::EventModel;
use crate::event;
use crate::game;
use crate::hand::{BoardModel, HoleCards, Street};
use crate::player::{Chips, PlayerId};
use crate::rng::DeckSeed;
use crate::round::RoundModel;
use crate::round;
use crate::seqs;
use crate::sidepot::{PotModel, Stake};
use crate::sidepot;
use vstd::prelude::*;

verus! {

/// A hand as a mathematical value.
#[verifier::ext_equal]
pub struct HandModel {
    pub seats: Seq<HandSeat>,
    pub dealer_idx: usize,
    pub big_blind: Chips,
    pub small_blind: Chips,
    pub forced_straddle: Option<Chips>,
    pub preflop_bring_in: Chips,
    pub mode: HandMode,
    pub deck: DeckModel,
    pub deck_seed: DeckSeed,
    pub board: BoardModel,
    pub phase: Phase,
    pub round: Option<RoundModel>,
    pub completed_pot: Chips,
    pub street_pots: Seq<PotModel>,
    pub actions: Seq<ActionRecord>,
    pub action_seq: u16,
    pub last_action: Map<u64, PlayerAction>,
    pub events: Seq<EventModel>,
    pub pending_board_street: Option<Street>,
    pub finished_street: Option<Street>,
}

impl View for GameHand {
    type V = HandModel;

    open(crate) spec fn view(&self) -> HandModel {
        HandModel {
            seats: self.seats@,
            dealer_idx: self.dealer_idx,
            big_blind: self.big_blind,
            small_blind: self.small_blind,
            forced_straddle: self.forced_straddle,
            preflop_bring_in: self.preflop_bring_in,
            mode: self.mode,
            deck: self.deck@,
            deck_seed: self.deck_seed,
            board: self.board@,
            phase: self.phase,
            round: match self.betting_round {
                Some(r) => Some(r@),
                None => None,
            },
            completed_pot: self.completed_pot,
            street_pots: sidepot::pots_view(self.cumulative_side_pots@),
            actions: self.actions@,
            action_seq: self.action_seq,
            last_action: self.last_action@,
            events: event::events_view(self.events@),
            pending_board_street: self.pending_board_street,
            finished_street: self.finished_street,
        }
    }
}

/// The test for the seat of `pid`.
pub open spec fn is_seat_of(pid: PlayerId) -> spec_fn(HandSeat) -> bool {
    |s: HandSeat| s.player_id == pid
}

/// The test for a seat that has not folded.
pub open spec fn in_hand() -> spec_fn(HandSeat) -> bool {
    |s: HandSeat| !s.folded
}

/// The test for a seat that is all in.
pub open spec fn is_all_in() -> spec_fn(HandSeat) -> bool {
    |s: HandSeat| s.all_in
}

pub open spec fn seat_player() -> spec_fn(HandSeat) -> PlayerId {
    |s: HandSeat| s.player_id
}

/// A seat's player and stack.
pub open spec fn seat_entry() -> spec_fn(HandSeat) -> (PlayerId, Chips) {
    |s: HandSeat| (s.player_id, s.stack)
}

/// What a seat has put in.
pub open spec fn put_in() -> spec_fn(HandSeat) -> int {
    |s: HandSeat| s.starting_stack.0 - s.stack.0
}

pub open spec fn start_chips() -> spec_fn(HandSeat) -> int {
    |s: HandSeat| s.starting_stack.0 as int
}

pub open spec fn stack_chips() -> spec_fn(HandSeat) -> int {
    |s: HandSeat| s.stack.0 as int
}

pub open spec fn record_chips() -> spec_fn(ActionRecord) -> int {
    |a: ActionRecord| a.amount.0 as int
}

/// The players of the seats.
pub open spec fn seat_ids(seats: Seq<HandSeat>) -> Seq<PlayerId> {
    Seq::new(seats.len(), |i: int| seats[i].player_id)
}

/// What the seats have put in, and who is in the hand.
pub open spec fn seat_stakes(seats: Seq<HandSeat>) -> Seq<Stake> {
    Seq::new(
        seats.len(),
        |i: int|
            Stake {
                player_id: seats[i].player_id,
                amount: (seats[i].starting_stack.0 - seats[i].stack.0) as u32,
                live: !seats[i].folded,
            },
    )
}

/// The next number after `n`, or `n` where there is none.
pub open spec fn next_number(n: u16) -> u16 {
    if n == u16::MAX {
        n
    } else {
        (n + 1) as u16
    }
}

/// The street after `s`.
pub open spec fn street_after(s: Street) -> Option<Street> {
    match s {
        Street::Preflop => Some(Street::Flop),
        Street::Flop => Some(Street::Turn),
        Street::Turn => Some(Street::River),
        Street::River => None,
    }
}

/// `board` with the cards of `street` on it.
pub open spec fn board_with(board: BoardModel, street: Street, cards: Seq<Card>) -> BoardModel {
    match street {
        Street::Preflop => board,
        Street::Flop => BoardModel { flop: Some(cards), ..board },
        Street::Turn => BoardModel { turn: Some(cards[0]), ..board },
        Street::River => BoardModel { river: Some(cards[0]), ..board },
    }
}

/// The forced bets: where they are posted and how much, and the number of the first.
pub struct OpeningPosts {
    pub sb: int,
    pub sb_posted: u32,
    pub bb: int,
    pub bb_posted: u32,
    pub straddle: Option<(int, u32)>,
    pub first_seq: u16,
}

/// The betting state that an event reports: the bet, the least raise, and who is next.
pub struct BettingState {
    pub current_bet: u64,
    pub min_raise_to: Option<u64>,
    pub next_actor_seat: Option<u8>,
}

impl HandModel {
    /// The street that is played, or on which the hand ended.
    pub open spec fn street(self) -> Street {
        match self.phase {
            Phase::Betting(s) => s,
            Phase::Done => match self.finished_street {
                Some(s) => s,
                None => Street::Preflop,
            },
            Phase::NotStarted => Street::Preflop,
        }
    }

    /// Where `pid` sits; the number of seats where the player is not in the hand.
    pub open spec fn seat_index(self, pid: PlayerId) -> int {
        seqs::first_index(self.seats, is_seat_of(pid))
    }

    /// The chips that the seats have put in.
    pub open spec fn committed(self) -> int {
        seqs::sum_of(self.seats, put_in())
    }

    /// The chips with which the players sat down.
    pub open spec fn starting_total(self) -> int {
        seqs::sum_of(self.seats, start_chips())
    }

    /// How many players have not folded.
    pub open spec fn active_count(self) -> int {
        seqs::count_of(self.seats, in_hand())
    }

    /// The chips put in on this street.
    pub open spec fn round_pot(self) -> int {
        match self.round {
            Some(r) => r.pot(),
            None => 0,
        }
    }

    /// All the chips in the middle.
    pub open spec fn pot(self) -> int {
        self.completed_pot.0 + self.round_pot()
    }

    /// The pots of the hand, over all its streets.
    pub open spec fn hand_pots(self) -> Seq<PotModel> {
        sidepot::pots_of(seat_stakes(self.seats))
    }

    /// All the chips of the hand in pots, whoever is left in it.
    pub open spec fn every_pot(self) -> Seq<PotModel> {
        sidepot::all_pots(seat_stakes(self.seats))
    }

    /// Whose turn it is.
    pub open spec fn current_actor(self) -> Option<PlayerId> {
        match self.round {
            Some(r) => r.current(),
            None => None,
        }
    }

    /// The bet to match.
    pub open spec fn current_bet(self) -> int {
        match self.round {
            Some(r) => r.to_match(),
            None => 0,
        }
    }

    /// The least raise, where the player whose turn it is may raise.
    pub open spec fn open_raise(self) -> Option<Chips> {
        match self.round {
            Some(r) => if !r.done() && r.may_raise(r.actor) {
                Some(Chips(r.min_raise_total() as u32))
            } else {
                None
            },
            None => None,
        }
    }

    /// The number of a player's seat.
    pub open spec fn seat_number(self, pid: Option<PlayerId>) -> Option<u8> {
        match pid {
            Some(p) => if self.seat_index(p) < self.seats.len() {
                Some(self.seats[self.seat_index(p)].seat)
            } else {
                None
            },
            None => None,
        }
    }

    /// What `pid` has put in on this street.
    pub open spec fn committed_on_street(self, pid: PlayerId) -> Chips {
        match self.round {
            Some(r) => round::contributed_by(r, pid),
            None => Chips(0),
        }
    }

    /// A seat as the table shows it.
    pub open spec fn shown_player(self, i: int) -> SnapshotPlayer {
        let s = self.seats[i];
        SnapshotPlayer {
            player_id: s.player_id,
            stack: s.stack,
            hole_cards: s.hole.known(),
            folded: s.folded,
            all_in: s.all_in,
            committed_this_street: self.committed_on_street(s.player_id),
            last_action: if self.last_action.contains_key(s.player_id.0) {
                Some(self.last_action[s.player_id.0])
            } else {
                None
            },
            seat: s.seat,
        }
    }

    /// The number of the dealer's seat.
    pub open spec fn dealer_seat(self) -> u8 {
        if self.seats.len() == 0 {
            0
        } else {
            self.seats[self.dealer_idx as int % self.seats.len() as int].seat
        }
    }

    /// The hand as the table shows it.
    pub open spec fn snapshot(self) -> SnapshotModel {
        SnapshotModel {
            street: self.street(),
            board: self.board,
            pot: Chips(self.pot() as u32),
            side_pots: self.hand_pots(),
            current_actor: self.current_actor(),
            min_raise_to: self.open_raise(),
            current_bet: Chips(self.current_bet() as u32),
            players: Seq::new(self.seats.len(), |i: int| self.shown_player(i)),
            dealer_seat: self.dealer_seat(),
        }
    }

    /// The seats agree with the round: every player of the round has a seat
    /// with the same stack, folded or not alike, and every seat that has not
    /// folded plays in the round.
    pub open spec fn agrees_with(self, r: RoundModel) -> bool {
        &&& forall|i: int|
            0 <= i < r.players.len() ==> {
                let k = self.seat_index((#[trigger] r.players[i]).player_id);
                &&& k < self.seats.len()
                &&& self.seats[k].stack == r.players[i].stack
                &&& self.seats[k].folded == r.players[i].folded
            }
        &&& forall|k: int|
            0 <= k < self.seats.len() && !(#[trigger] self.seats[k]).folded ==> r.index_of(
                self.seats[k].player_id,
            ) < r.players.len()
    }

    /// A hand in which no chip has moved.
    pub open spec fn untouched(self) -> bool {
        &&& self.round is None
        &&& self.completed_pot.0 == 0
        &&& self.street_pots.len() == 0
        &&& forall|k: int|
            0 <= k < self.seats.len() ==> (#[trigger] self.seats[k]).stack
                == self.seats[k].starting_stack && !self.seats[k].folded && !self.seats[k].all_in
    }

    /// Whether the hand has begun.
    pub open spec fn begun(self) -> bool {
        self.phase is Betting || (self.phase is Done && self.actions.len() > 0)
    }

    /// The players who have not folded are all in exactly where they have no chips left.
    pub open spec fn flagged(self) -> bool {
        forall|k: int|
            0 <= k < self.seats.len() && !(#[trigger] self.seats[k]).folded ==> self.seats[k].all_in
                == (self.seats[k].stack.0 == 0)
    }

    /// The chips, the seats and the round of a hand are in order.
    pub open spec fn sound(self) -> bool {
        &&& self.seats.len() + 2 <= u32::MAX
        &&& seqs::distinct(seat_ids(self.seats))
        &&& self.deck.wf()
        &&& forall|k: int|
            0 <= k < self.seats.len() ==> (#[trigger] self.seats[k]).stack.0
                <= self.seats[k].starting_stack.0
        &&& forall|k: int|
            0 <= k < self.seats.len() && (#[trigger] self.seats[k]).all_in
                ==> self.seats[k].stack.0 == 0
        &&& self.phase is Betting ==> self.flagged()
        &&& self.pot() == self.committed()
        &&& sidepot::pots_total(self.street_pots) == self.completed_pot.0
        &&& self.committed() > 0 ==> self.starting_total() <= u32::MAX
        &&& self.round matches Some(r) ==> r.wf() && self.agrees_with(r) && self.phase is Betting
        &&& self.phase is NotStarted ==> self.untouched()
        &&& self.phase is Betting ==> self.seats.len() >= 2 && self.starting_total() <= u32::MAX
        &&& self.phase is Betting || (self.phase is Done && self.mode == HandMode::Plaintext)
            ==> self.active_count() >= 1
    }

    /// The records account for every chip that was put in. Before the hand
    /// begins there are none, but for a beginning that ran out of cards.
    pub open spec fn tallied(self) -> bool {
        if self.phase is NotStarted {
            self.actions.len() == 0 || (self.mode == HandMode::Plaintext && self.deck.left() < 2
                * self.seats.len())
        } else {
            seqs::sum_of(self.actions, record_chips()) == self.committed()
        }
    }

    /// What holds of every hand.
    pub open spec fn wf(self) -> bool {
        &&& self.sound()
        &&& self.tallied()
        &&& self.begun() ==> self.flagged()
    }

    /// The hand without its history: the actions, the players' last actions and the events.
    pub open spec fn without_history(self) -> HandModel {
        HandModel {
            actions: Seq::empty(),
            last_action: Map::empty(),
            events: Seq::empty(),
            ..self
        }
    }

    // ---- the blinds ----
    /// The places of the blinds.
    pub open spec fn blinds(self) -> (int, int) {
        game::blind_seats(self.dealer_idx as int, self.seats.len() as int)
    }

    /// Where the player sits who must straddle: after the big blind, with three or more players.
    pub open spec fn straddler(self) -> Option<int> {
        if self.forced_straddle is Some && self.seats.len() >= 3 {
            Some((self.blinds().1 + 1) % (self.seats.len() as int))
        } else {
            None
        }
    }

    /// What the seat `i` posts of a forced bet of `amount`: no more than its stack.
    pub open spec fn post_of(self, i: int, amount: Chips) -> u32 {
        if amount.0 < self.seats[i].stack.0 {
            amount.0
        } else {
            self.seats[i].stack.0
        }
    }

    /// The hand with the opening event.
    pub open spec fn announced(self) -> HandModel {
        HandModel {
            events: self.events.push(
                EventModel::HandStarted {
                    dealer_seat: self.dealer_seat(),
                    sb_seat: self.seats[self.blinds().0].seat,
                    bb_seat: self.seats[self.blinds().1].seat,
                    big_blind: self.big_blind.0 as u64,
                    small_blind: self.small_blind.0 as u64,
                    straddle_seat: match self.straddler() {
                        Some(i) => Some(self.seats[i].seat),
                        None => None,
                    },
                    straddle_amount: match self.straddler() {
                        Some(_) => Some(self.forced_straddle->Some_0.0 as u64),
                        None => None,
                    },
                    deck_seed: self.deck_seed,
                },
            ),
            ..self
        }
    }

    /// The hand with a forced bet of seat `i` on record. The chips move when the round opens.
    pub open spec fn recorded_post(
        self,
        i: int,
        kind: BlindKind,
        amount: Chips,
        pot_before: int,
    ) -> HandModel {
        let posted = self.post_of(i, amount);
        let s = self.seats[i];
        let action = PlayerAction::Blind { kind, amount: Chips(posted) };
        HandModel {
            actions: self.actions.push(
                ActionRecord {
                    seq: self.action_seq,
                    street: Street::Preflop,
                    player_id: s.player_id,
                    action,
                    amount: Chips(posted),
                    stack_before: s.stack,
                    stack_after: Chips((s.stack.0 - posted) as u32),
                    pot_before: Chips(pot_before as u32),
                    pot_after: Chips((pot_before + posted) as u32),
                },
            ),
            last_action: self.last_action.insert(s.player_id.0, action),
            action_seq: next_number(self.action_seq),
            ..self
        }
    }

    /// The hand with all its forced bets on record.
    pub open spec fn blinds_recorded(self) -> HandModel {
        let (sb, bb) = self.blinds();
        let a = self.post_of(sb, self.small_blind);
        let b = self.post_of(bb, self.big_blind);
        let two = self.recorded_post(sb, BlindKind::Small, self.small_blind, 0).recorded_post(
            bb,
            BlindKind::Big,
            self.big_blind,
            a as int,
        );
        match self.straddler() {
            Some(i) => two.recorded_post(
                i,
                BlindKind::Straddle,
                self.forced_straddle->Some_0,
                a + b,
            ),
            None => two,
        }
    }

    /// Whether the deck can give every seat two cards.
    pub open spec fn can_deal(self) -> bool {
        self.mode == HandMode::Blind || self.deck.left() >= 2 * self.seats.len()
    }

    /// The hand with the hole cards dealt: one card to each seat in turn, then another.
    pub open spec fn holes_dealt(self) -> HandModel {
        if self.mode == HandMode::Blind {
            self
        } else if !self.can_deal() {
            HandModel { deck: self.deck.dealt(2 * self.seats.len() as int), ..self }
        } else {
            HandModel {
                deck: self.deck.dealt(2 * self.seats.len() as int),
                seats: Seq::new(
                    self.seats.len(),
                    |i: int|
                        HandSeat {
                            hole: HoleSlot::Plain(
                                HoleCards {
                                    card1: self.deck.cards[self.deck.next + i],
                                    card2: self.deck.cards[self.deck.next + self.seats.len()
                                        + i],
                                },
                            ),
                            ..self.seats[i]
                        },
                ),
                ..self
            }
        }
    }

    /// The forced bets in the order in which they are posted.
    pub open spec fn posts(self) -> Seq<(PlayerId, Chips)> {
        let (sb, bb) = self.blinds();
        let two = seq![
            (self.seats[sb].player_id, Chips(self.post_of(sb, self.small_blind))),
            (self.seats[bb].player_id, Chips(self.post_of(bb, self.big_blind))),
        ];
        match self.straddler() {
            Some(i) => two.push(
                (
                    self.seats[i].player_id,
                    Chips(self.post_of(i, self.forced_straddle->Some_0)),
                ),
            ),
            None => two,
        }
    }

    /// The bet that opens the first round: the straddle where it was posted in
    /// full, else the big blind.
    pub open spec fn bring_in(self) -> Chips {
        match self.straddler() {
            Some(i) => if self.post_of(i, self.forced_straddle->Some_0)
                >= self.forced_straddle->Some_0.0 {
                self.forced_straddle->Some_0
            } else {
                self.big_blind
            },
            None => self.big_blind,
        }
    }

    /// Who acts first before the flop: the player after the last forced bet.
    pub open spec fn first_to_act(self) -> int {
        match self.straddler() {
            Some(i) => (i + 1) % (self.seats.len() as int),
            None => (self.blinds().1 + 1) % (self.seats.len() as int),
        }
    }

    /// The players and stacks of all seats.
    pub open spec fn entries(self) -> Seq<(PlayerId, Chips)> {
        Seq::new(self.seats.len(), |i: int| (self.seats[i].player_id, self.seats[i].stack))
    }

    /// The hand with its seats brought in line with the round.
    pub open spec fn synced(self, r: RoundModel) -> HandModel {
        HandModel {
            seats: Seq::new(
                self.seats.len(),
                |i: int|
                    {
                        let s = self.seats[i];
                        let k = r.index_of(s.player_id);
                        HandSeat {
                            stack: if k < r.players.len() {
                                r.players[k].stack
                            } else {
                                s.stack
                            },
                            all_in: k < r.players.len() && r.players[k].stack.0 == 0,
                            folded: k < r.players.len() && r.players[k].folded,
                            ..s
                        }
                    },
            ),
            ..self
        }
    }

    /// The hand with its first round open and the forced bets posted.
    pub open spec fn preflop_opened(self) -> HandModel {
        let r = round::opened_preflop(
            self.entries(),
            self.first_to_act(),
            self.posts(),
            self.bring_in(),
        );
        HandModel {
            preflop_bring_in: self.bring_in(),
            phase: Phase::Betting(Street::Preflop),
            round: Some(r),
            ..self
        }.synced(r)
    }

    /// The event of a forced bet; all of them report the state after the last one.
    pub open spec fn post_event(
        self,
        i: int,
        kind: BlindKind,
        posted: u32,
        seq: u16,
    ) -> EventModel {
        EventModel::ActionApplied {
            seat: self.seats[i].seat,
            action: PlayerAction::Blind { kind, amount: Chips(posted) },
            contributed: posted as u64,
            current_bet: self.current_bet() as u64,
            min_raise_to: match self.round {
                Some(r) => Some(r.min_raise_total() as u64),
                None => None,
            },
            next_actor_seat: self.seat_number(self.current_actor()),
            action_seq: seq,
        }
    }

    /// The hand with `e` reported.
    pub open spec fn reporting(self, e: EventModel) -> HandModel {
        HandModel { events: self.events.push(e), ..self }
    }

    /// The events of the hole cards of the first `k` seats.
    pub open spec fn deal_events(self, k: int) -> Seq<EventModel>
        decreases k,
    {
        if k <= 0 {
            Seq::empty()
        } else {
            match self.seats[k - 1].hole.known() {
                Some(h) => self.deal_events(k - 1).push(
                    EventModel::HoleCardsDealt { seat: self.seats[k - 1].seat, cards: h.cards() },
                ),
                None => self.deal_events(k - 1),
            }
        }
    }

    /// The forced bets as they will be reported.
    pub open spec fn opening_posts(self) -> OpeningPosts {
        let (sb, bb) = self.blinds();
        OpeningPosts {
            sb,
            sb_posted: self.post_of(sb, self.small_blind),
            bb,
            bb_posted: self.post_of(bb, self.big_blind),
            straddle: match self.straddler() {
                Some(i) => Some((i, self.post_of(i, self.forced_straddle->Some_0))),
                None => None,
            },
            first_seq: self.action_seq,
        }
    }

    /// The hand with the forced bets and the deal reported.
    pub open spec fn opening_reported(self, posts: OpeningPosts) -> HandModel {
        let second = next_number(posts.first_seq);
        let third = next_number(second);
        let two = self.reporting(
            self.post_event(posts.sb, BlindKind::Small, posts.sb_posted, posts.first_seq),
        ).reporting(self.post_event(posts.bb, BlindKind::Big, posts.bb_posted, second));
        let all = match posts.straddle {
            Some((i, c)) => two.reporting(self.post_event(i, BlindKind::Straddle, c, third)),
            None => two,
        };
        let total = posts.sb_posted + posts.bb_posted + match posts.straddle {
            Some((_, c)) => c as int,
            None => 0,
        };
        let pots = all.reporting(
            EventModel::PotUpdated {
                pot: total as u64,
                side_pots: Seq::empty(),
                has_all_in: seqs::count_of(self.seats, is_all_in()) > 0,
            },
        );
        if self.mode == HandMode::Plaintext {
            HandModel { events: pots.events + self.deal_events(self.seats.len() as int), ..pots }
        } else {
            pots
        }
    }

    /// Why the hand cannot begin; `None` where it can.
    pub open spec fn start_refusal(self) -> Option<ActionError> {
        if !(self.phase is NotStarted) {
            Some(ActionError::HandFinished)
        } else if self.starting_total() > u32::MAX {
            Some(ActionError::InvalidAction)
        } else if self.seats.len() < 2 {
            Some(ActionError::NotInHand)
        } else {
            None
        }
    }

    /// The hand after an attempt to begin it, and whether that succeeded.
    pub open spec fn started(self) -> (HandModel, Result<(), ActionError>) {
        match self.start_refusal() {
            Some(e) => (self, Err(e)),
            None => {
                let dealt = self.announced().blinds_recorded().holes_dealt();
                if !self.can_deal() {
                    (dealt, Err(ActionError::HandFinished))
                } else {
                    let open = dealt.preflop_opened().opening_reported(self.opening_posts());
                    if open.round->Some_0.done() {
                        open.street_closed()
                    } else {
                        (open, Ok(()))
                    }
                }
            },
        }
    }

    // ---- an action ----
    /// The action as it is recorded: a call of nothing is a check.
    pub open spec fn recorded_action(self, pid: PlayerId, action: PlayerAction) -> PlayerAction {
        let r = self.round->Some_0;
        if action is Call && r.owed(r.index_of(pid)) == 0 {
            PlayerAction::Check
        } else {
            action
        }
    }

    /// The hand with the chips of an allowed action moved and the action on record.
    pub open spec fn moved_by(self, pid: PlayerId, action: PlayerAction) -> HandModel {
        let r = self.round->Some_0;
        let i = r.index_of(pid);
        let k = self.seat_index(pid);
        let chips = r.chips_for(i, action);
        let next = r.after(i, action);
        let recorded = self.recorded_action(pid, action);
        let s = self.seats[k];
        HandModel {
            seats: self.seats.update(
                k,
                HandSeat {
                    stack: Chips((s.stack.0 - chips) as u32),
                    folded: next.players[i].folded,
                    all_in: next.players[i].stack.0 == 0,
                    ..s
                },
            ),
            round: Some(next),
            actions: self.actions.push(
                ActionRecord {
                    seq: self.action_seq,
                    street: self.street(),
                    player_id: pid,
                    action: recorded,
                    amount: Chips(chips as u32),
                    stack_before: s.stack,
                    stack_after: Chips((s.stack.0 - chips) as u32),
                    pot_before: Chips(self.pot() as u32),
                    pot_after: Chips((self.pot() + chips) as u32),
                },
            ),
            action_seq: next_number(self.action_seq),
            last_action: self.last_action.insert(pid.0, recorded),
            ..self
        }
    }

    /// The event of an action of the seat `k` that moved `chips`; this is the hand after it.
    pub open spec fn action_event(
        self,
        k: int,
        recorded: PlayerAction,
        chips: int,
        seq: u16,
    ) -> EventModel {
        EventModel::ActionApplied {
            seat: self.seats[k].seat,
            action: recorded,
            contributed: chips as u64,
            current_bet: self.current_bet() as u64,
            min_raise_to: match self.open_raise() {
                Some(c) => Some(c.0 as u64),
                None => None,
            },
            next_actor_seat: self.seat_number(self.current_actor()),
            action_seq: seq,
        }
    }

    /// The event of a change of the pots.
    pub open spec fn pot_event(self) -> EventModel {
        EventModel::PotUpdated {
            pot: self.pot() as u64,
            side_pots: self.hand_pots(),
            has_all_in: seqs::count_of(self.seats, is_all_in()) > 0,
        }
    }

    /// The hand after an allowed action, before the street may close.
    pub open spec fn acted(self, pid: PlayerId, action: PlayerAction) -> HandModel {
        let r = self.round->Some_0;
        let chips = r.chips_for(r.index_of(pid), action);
        let moved = self.moved_by(pid, action);
        let told = moved.reporting(
            moved.action_event(
                self.seat_index(pid),
                self.recorded_action(pid, action),
                chips,
                self.action_seq,
            ),
        );
        if chips > 0 {
            told.reporting(moved.pot_event())
        } else {
            told
        }
    }

    /// Why `pid` may not take `action`; `None` where the player may.
    pub open spec fn refusal(self, pid: PlayerId, action: PlayerAction) -> Option<ActionError> {
        match self.phase {
            Phase::NotStarted => Some(ActionError::HandNotStarted),
            Phase::Done => Some(ActionError::HandFinished),
            Phase::Betting(_) => if self.seat_index(pid) >= self.seats.len() {
                Some(ActionError::NotInHand)
            } else {
                match self.round {
                    None => Some(ActionError::HandFinished),
                    Some(r) => r.refusal(pid, action),
                }
            },
        }
    }

    /// The hand after an attempt of `pid` to take `action`, and, where that
    /// succeeded, whether the action ended the betting round.
    pub open spec fn applied(self, pid: PlayerId, action: PlayerAction) -> (
        HandModel,
        Result<bool, ActionError>,
    ) {
        match self.refusal(pid, action) {
            Some(e) => (self, Err(e)),
            None => {
                let next = self.acted(pid, action);
                if next.round->Some_0.done() {
                    let closed = next.street_closed();
                    (
                        closed.0,
                        match closed.1 {
                            Ok(()) => Ok(true),
                            Err(e) => Err(e),
                        },
                    )
                } else {
                    (next, Ok(false))
                }
            },
        }
    }

    // ---- the end of a street ----
    /// The hand with the chips of its round put to the pots.
    pub open spec fn banked(self) -> HandModel {
        match self.round {
            Some(r) => {
                let new = sidepot::pots_of(round::round_stakes(r.players));
                HandModel {
                    round: None,
                    completed_pot: Chips((self.completed_pot.0 + sidepot::pots_total(new)) as u32),
                    street_pots: self.street_pots + new,
                    ..self
                }
            },
            None => self,
        }
    }

    /// The hand, over.
    pub open spec fn finished(self) -> HandModel {
        HandModel { finished_street: Some(self.street()), phase: Phase::Done, ..self }
    }

    /// The next `k` cards of the deck.
    pub open spec fn next_cards(self, k: int) -> Seq<Card> {
        self.deck.cards.subrange(self.deck.next, self.deck.next + k)
    }

    /// The hand with the cards of `street` dealt from the deck, or awaited from elsewhere.
    pub open spec fn board_advanced(self, street: Street) -> HandModel {
        match self.mode {
            HandMode::Plaintext => {
                let cards = self.next_cards(game::street_cards(street));
                HandModel {
                    deck: self.deck.dealt(game::street_cards(street)),
                    board: board_with(self.board, street, cards),
                    ..self
                }.reporting(
                    EventModel::StreetRevealed {
                        street,
                        new_cards: cards,
                        current_bet: 0,
                        min_raise_to: None,
                        next_actor_seat: None,
                    },
                )
            },
            HandMode::Blind => HandModel { pending_board_street: Some(street), ..self },
        }
    }

    /// The seats in table order from seat `start` on.
    pub open spec fn seats_from(self, start: int) -> Seq<HandSeat> {
        Seq::new(
            self.seats.len(),
            |i: int| self.seats[(start + i) % (self.seats.len() as int)],
        )
    }

    /// The place after the button.
    pub open spec fn left_of_button(self) -> int {
        (self.dealer_idx as int % self.seats.len() as int + 1) % (self.seats.len() as int)
    }

    /// The first seat from `start` on that can act; `start` where none can.
    pub open spec fn first_active(self, start: int) -> int {
        let n = self.seats.len() as int;
        (start + seqs::first_index(self.seats_from(start), can_act_seat())) % n
    }

    /// The players of the next round.
    pub open spec fn next_entries(self) -> Seq<(PlayerId, Chips)> {
        seqs::pick(self.seats, in_hand(), seat_entry())
    }

    /// Who acts first in the next round.
    pub open spec fn next_first(self) -> int {
        let e = self.next_entries();
        let i = seqs::first_index(
            e,
            is_entry_of(self.seats[self.first_active(self.left_of_button())].player_id),
        );
        if i < e.len() {
            i
        } else {
            0
        }
    }

    /// The hand with the round of `street` open.
    pub open spec fn round_opened(self, street: Street) -> HandModel {
        HandModel {
            phase: Phase::Betting(street),
            round: Some(
                round::opened(
                    round::seated(self.next_entries()),
                    self.next_first(),
                    Chips(0),
                    self.big_blind,
                ),
            ),
            ..self
        }
    }

    /// The betting state at the start of a street.
    pub open spec fn betting_state(self) -> BettingState {
        BettingState {
            current_bet: self.current_bet() as u64,
            min_raise_to: match self.round {
                Some(r) => if r.done() {
                    None
                } else {
                    Some(r.min_raise_total() as u64)
                },
                None => None,
            },
            next_actor_seat: self.seat_number(self.current_actor()),
        }
    }

    /// The hand with the betting state filled in where the last event shows a new street.
    pub open spec fn state_reported(self) -> HandModel {
        let b = self.betting_state();
        if self.events.len() > 0 {
            match self.events.last() {
                EventModel::StreetRevealed { street, new_cards, .. } => HandModel {
                    events: self.events.drop_last().push(
                        EventModel::StreetRevealed {
                            street,
                            new_cards,
                            current_bet: b.current_bet,
                            min_raise_to: b.min_raise_to,
                            next_actor_seat: b.next_actor_seat,
                        },
                    ),
                    ..self
                },
                _ => self,
            }
        } else {
            self
        }
    }

    /// The hand after its betting round is over, and whether there were cards
    /// enough. It ends where one player is left or the river has been played.
    /// Otherwise the next street opens. Where nobody can bet on it and the
    /// engine deals, that street closes at once.
    pub open spec fn street_closed(self) -> (HandModel, Result<(), ActionError>)
        decreases 3 - self.street().order(),
    {
        let b = self.banked();
        match street_after(b.street()) {
            _ if b.active_count() <= 1 => (b.finished(), Ok(())),
            None => (b.finished(), Ok(())),
            Some(s) => if b.mode == HandMode::Plaintext && b.deck.left() < game::street_cards(s) {
                (
                    HandModel { deck: b.deck.dealt(game::street_cards(s)), ..b },
                    Err(ActionError::HandFinished),
                )
            } else {
                let o = b.board_advanced(s).round_opened(s).state_reported();
                if o.mode == HandMode::Plaintext && o.round->Some_0.done() {
                    o.street_closed()
                } else {
                    (o, Ok(()))
                }
            },
        }
    }
}

/// The test for a seat that can act.
pub open spec fn can_act_seat() -> spec_fn(HandSeat) -> bool {
    |s: HandSeat| !s.folded && !s.all_in
}

/// The test for the entry of `pid`.
pub open spec fn is_entry_of(pid: PlayerId) -> spec_fn((PlayerId, Chips)) -> bool {
    |e: (PlayerId, Chips)| e.0 == pid
}

/// The test for a card that is neither of two.
pub open spec fn neither_of(h: HoleCards) -> spec_fn(Card) -> bool {
    |c: Card| c != h.card1 && c != h.card2
}

/// Whether a seat has shown `card`.
pub open spec fn shows_card(s: HandSeat, card: Card) -> bool {
    s.hole matches HoleSlot::Revealed(h) && (h.card1 == card || h.card2 == card)
}

impl HandModel {
    /// The cards that would have come on the board had the hand gone on.
    pub open spec fn missing_board(self) -> Seq<Card> {
        let needed = 5 - self.board.cards().len();
        if self.mode != HandMode::Plaintext || !(self.phase is Done) {
            Seq::empty()
        } else if needed <= self.deck.left() {
            self.next_cards(needed)
        } else {
            self.next_cards(self.deck.left())
        }
    }

    /// Whether `card` is on the board, or in a hand that was shown.
    pub open spec fn knows(self, card: Card) -> bool {
        self.board.cards().contains(card) || exists|i: int|
            0 <= i < self.seats.len() && shows_card(#[trigger] self.seats[i], card)
    }

    /// The first of `cards`, from place `i` on, that is known already or
    /// occurs among those before it.
    pub open spec fn first_known(self, cards: Seq<Card>, i: int) -> Option<Card>
        decreases cards.len() - i,
    {
        if i >= cards.len() {
            None
        } else if cards.take(i).contains(cards[i]) || self.knows(cards[i]) {
            Some(cards[i])
        } else {
            self.first_known(cards, i + 1)
        }
    }

    /// Why cards are not taken for the board; `None` where they are.
    pub open spec fn board_refusal(self, cards: Seq<Card>) -> Option<BlindInjectError> {
        if self.mode != HandMode::Blind {
            Some(BlindInjectError::NotBlindMode)
        } else {
            match self.pending_board_street {
                None => Some(BlindInjectError::NoBoardPending),
                Some(street) => if street == Street::Preflop {
                    Some(BlindInjectError::NoBoardPending)
                } else if cards.len() != game::street_cards(street) {
                    Some(
                        BlindInjectError::WrongBoardCount {
                            street,
                            expected: game::street_cards(street) as usize,
                            got: cards.len() as usize,
                        },
                    )
                } else {
                    match self.first_known(cards, 0) {
                        Some(card) => Some(BlindInjectError::DuplicateCard { card }),
                        None => None,
                    }
                },
            }
        }
    }

    /// The hand with the awaited cards on the board.
    pub open spec fn board_shown(self, cards: Seq<Card>) -> HandModel {
        let street = self.pending_board_street->Some_0;
        let b = self.betting_state();
        HandModel {
            board: board_with(self.board, street, cards),
            pending_board_street: None,
            ..self
        }.reporting(
            EventModel::StreetRevealed {
                street,
                new_cards: cards,
                current_bet: b.current_bet,
                min_raise_to: b.min_raise_to,
                next_actor_seat: b.next_actor_seat,
            },
        )
    }

    /// The hand after the awaited cards were taken. Where nobody can bet on the
    /// street, it closes.
    pub open spec fn board_taken(self, cards: Seq<Card>) -> HandModel {
        let shown = self.board_shown(cards);
        match shown.round {
            Some(r) => if r.done() {
                shown.street_closed().0
            } else {
                shown
            },
            None => shown,
        }
    }

    /// Why a player's cards are not taken at the showdown; `None` where they are.
    pub open spec fn reveal_refusal(self, pid: PlayerId, h: HoleCards) -> Option<
        BlindInjectError,
    > {
        let i = self.seat_index(pid);
        let again = self.seats[i].hole == HoleSlot::Revealed(h);
        if self.mode != HandMode::Blind {
            Some(BlindInjectError::NotBlindMode)
        } else if !(self.phase is Done) {
            Some(BlindInjectError::NotAtShowdown)
        } else if i >= self.seats.len() {
            Some(BlindInjectError::UnknownPlayer(pid))
        } else if self.seats[i].folded {
            Some(BlindInjectError::PlayerFolded(pid))
        } else if self.seats[i].hole is Revealed && !again {
            Some(BlindInjectError::AlreadyRevealed(pid))
        } else if again {
            None
        } else {
            match self.first_known(h.cards(), 0) {
                Some(card) => Some(BlindInjectError::DuplicateCard { card }),
                None => None,
            }
        }
    }

    /// The hand with the cards of `pid` shown.
    pub open spec fn revealed(self, pid: PlayerId, h: HoleCards) -> HandModel {
        let i = self.seat_index(pid);
        HandModel {
            seats: self.seats.update(
                i,
                HandSeat { hole: HoleSlot::Revealed(h), ..self.seats[i] },
            ),
            ..self
        }
    }

    /// The hand with known cards for `pid`, and a deck of all cards but these.
    pub open spec fn overridden(self, pid: PlayerId, h: HoleCards) -> HandModel {
        let i = self.seat_index(pid);
        if i >= self.seats.len() {
            self
        } else {
            HandModel {
                seats: self.seats.update(
                    i,
                    HandSeat { hole: HoleSlot::Plain(h), ..self.seats[i] },
                ),
                deck: DeckModel {
                    cards: seqs::pick(self.deck.cards, neither_of(h), |c: Card| c),
                    next: 0,
                },
                ..self
            }
        }
    }
}

/// What `pid` put in on `street` by an action.
pub open spec fn amount_by(street: Street, pid: PlayerId) -> spec_fn(ActionRecord) -> int {
    |a: ActionRecord|
        if a.street == street && a.player_id == pid {
            a.amount.0 as int
        } else {
            0
        }
}

/// No player has put more on `street` than a `u32` can hold.
pub open spec fn street_sums_fit(actions: Seq<ActionRecord>, street: Street) -> bool {
    forall|i: int|
        0 <= i < actions.len() ==> seqs::sum_of(
            actions,
            amount_by(street, (#[trigger] actions[i]).player_id),
        ) <= u32::MAX
}

/// The test for an action that a player chose on `street`.
pub open spec fn chosen_on(street: Street) -> spec_fn(ActionRecord) -> bool {
    |a: ActionRecord| a.street == street && !(a.action is Blind)
}

/// Who took an action, and which.
pub open spec fn who_and_what() -> spec_fn(ActionRecord) -> (PlayerId, PlayerAction) {
    |a: ActionRecord| (a.player_id, a.action)
}

/// The betting on a street: the bet, the size of the last full raise, and what
/// each action meant.
#[verifier::ext_equal]
pub struct StreetStory {
    pub bet: int,
    pub raise: int,
    pub facts: Seq<StreetActionFact>,
}

/// The story of `street` as `actions` tell it, from a bet of `bet` and a least
/// raise of `raise` on. A raise or all-in raises the bet where it brings the
/// player's chips on the street above it.
pub open spec fn street_story(
    actions: Seq<ActionRecord>,
    street: Street,
    bet: int,
    raise: int,
) -> StreetStory
    decreases actions.len(),
{
    if actions.len() == 0 {
        StreetStory { bet, raise, facts: Seq::empty() }
    } else {
        let before = street_story(actions.drop_last(), street, bet, raise);
        let a = actions.last();
        if !chosen_on(street)(a) {
            before
        } else {
            let total = seqs::sum_of(actions, amount_by(street, a.player_id));
            let increased = game::aggressive(a.action) && total > before.bet;
            let full = increased && total - before.bet >= before.raise;
            StreetStory {
                bet: if increased {
                    total
                } else {
                    before.bet
                },
                raise: if full {
                    total - before.bet
                } else {
                    before.raise
                },
                facts: before.facts.push(
                    StreetActionFact {
                        player_id: a.player_id,
                        action: a.action,
                        increased_bet: increased,
                        full_raise: full,
                    },
                ),
            }
        }
    }
}

/// The player of the last action that raised the bet.
pub open spec fn last_raiser(facts: Seq<StreetActionFact>) -> Option<PlayerId>
    decreases facts.len(),
{
    if facts.len() == 0 {
        None
    } else if facts.last().increased_bet {
        Some(facts.last().player_id)
    } else {
        last_raiser(facts.drop_last())
    }
}

/// The street at place `i` in the hand.
pub open spec fn street_at(i: int) -> Street {
    if i == 0 {
        Street::Preflop
    } else if i == 1 {
        Street::Flop
    } else if i == 2 {
        Street::Turn
    } else {
        Street::River
    }
}

impl HandModel {
    /// Whether the actions on `street` can be told: no player has put more on
    /// it than can be counted. Of a hand that has begun they always can.
    pub open spec fn can_tell(self, street: Street) -> bool {
        street_sums_fit(self.actions, street) || (self.wf() && !(self.phase is NotStarted))
    }

    /// The bet and the least raise with which `street` opens.
    pub open spec fn opening_of(self, street: Street) -> (int, int) {
        let bring_in = if self.preflop_bring_in.0 > self.big_blind.0 {
            self.preflop_bring_in.0 as int
        } else {
            self.big_blind.0 as int
        };
        if street == Street::Preflop {
            (bring_in, bring_in)
        } else {
            (0, self.big_blind.0 as int)
        }
    }

    /// What each action on `street` meant.
    pub open spec fn facts_of(self, street: Street) -> Seq<StreetActionFact> {
        let o = self.opening_of(street);
        street_story(self.actions, street, o.0, o.1).facts
    }

    /// The last player to raise the bet, on the streets up to place `i`.
    pub open spec fn aggressor_up_to(self, i: int) -> Option<PlayerId>
        decreases i + 1,
    {
        if i < 0 {
            None
        } else {
            match last_raiser(self.facts_of(street_at(i))) {
                Some(pid) => Some(pid),
                None => self.aggressor_up_to(i - 1),
            }
        }
    }

    /// What an action of `pid` has done to the hand, which is now `after`.
    pub open spec fn transition(
        self,
        after: HandModel,
        pid: PlayerId,
        closed: bool,
    ) -> ActionTransitionPreview {
        let r = self.round->Some_0;
        let p = r.players[r.index_of(pid)];
        let s = after.seats[after.seat_index(pid)];
        ActionTransitionPreview {
            stack_before: p.stack,
            committed_before: p.contributed,
            current_bet_before: Chips(self.current_bet() as u32),
            min_raise_to_before: self.open_raise(),
            stack_after: s.stack,
            committed_after: after.committed_on_street(pid),
            current_bet_after: Chips(after.current_bet() as u32),
            min_raise_to_after: after.open_raise(),
            all_in_after: s.all_in,
            round_closed_after: closed,
            next_actor: after.current_actor(),
            next_actor_can_raise_after: after.open_raise() is Some,
            street_after: after.street(),
            betting_terminal_after: after.phase is Done || (match after.round {
                Some(n) => n.done(),
                None => true,
            }),
            hand_done_after: after.phase is Done,
        }
    }

    /// What an attempt of `pid` to take `action` would do.
    pub open spec fn preview(self, pid: PlayerId, action: PlayerAction) -> Result<
        ActionTransitionPreview,
        ActionError,
    > {
        match self.applied(pid, action).1 {
            Ok(closed) => Ok(self.transition(self.applied(pid, action).0, pid, closed)),
            Err(e) => Err(e),
        }
    }
}

} // verus!
