//! The board, the end of a street, and what the table shows.

use super::model::HandModel;
use super::{
    blind_positions, cards_for_street, BlindInjectError, GameHand, GameSnapshot, HandMode,
    HandSeat, HoleSlot, Phase, SnapshotPlayer,
};
use crate::action::{ActionError, ActionRecord, PlayerAction};
use crate::card::Card;
use crate::deck::Deck;
use crate::event::EngineEvent;
use crate::hand::{HoleCards, Street};
use crate::player::{Chips, PlayerId};
use crate::rng::DeckSeed;
use crate::round::{BettingRound, SidePot};
use crate::sidepot::{layer_all, layer_pots, Stake};
use crate::event;
use crate::game;
use crate::game::invariants;
use crate::game::model;
use crate::round;
use crate::seqs;
use crate::sidepot;
use vstd::prelude::*;

verus! {

impl GameHand {
    /// The chips, the seats and the round of the hand are in order.
    pub open spec fn sound(&self) -> bool {
        self@.sound()
    }

    /// What holds of every hand: it is sound, its records account for every
    /// chip that was put in, and once it has begun the players who have not
    /// folded are all in exactly where they have no chips left.
    pub open spec fn wf(&self) -> bool {
        self@.wf()
    }

    /// Whether the hand is over.
    pub fn is_done(&self) -> (r: bool)
        ensures
            r == (self@.phase is Done),
    {
        self.phase == Phase::Done
    }

    /// Whether the hand has begun, or is over.
    pub fn is_started(&self) -> (r: bool)
        ensures
            r == !(self@.phase is NotStarted),
    {
        self.phase != Phase::NotStarted
    }

    /// The seats in table order.
    pub fn seats(&self) -> (r: &[HandSeat])
        ensures
            r@ == self@.seats,
    {
        self.seats.as_slice()
    }

    /// The seed on record.
    pub fn deck_seed(&self) -> (r: DeckSeed)
        ensures
            r == self@.deck_seed,
    {
        self.deck_seed
    }

    /// The round that is open.
    pub fn betting_round_ref(&self) -> (r: Option<&BettingRound>)
        ensures
            match r {
                Some(x) => self@.round == Some(x@),
                None => self@.round is None,
            },
    {
        self.betting_round.as_ref()
    }

    /// The street whose cards have yet to be shown to the engine.
    pub fn pending_board_street(&self) -> (r: Option<Street>)
        ensures
            r == self@.pending_board_street,
    {
        self.pending_board_street
    }

    /// The actions on record, oldest first.
    pub fn actions(&self) -> (r: &[ActionRecord])
        ensures
            r@ == self@.actions,
    {
        self.actions.as_slice()
    }

    /// The events that have not been taken yet, oldest first.
    pub fn events(&self) -> (r: &[EngineEvent])
        ensures
            event::events_view(r@) == self@.events,
    {
        self.events.as_slice()
    }

    /// What a player did last.
    pub fn last_action(&self, player_id: PlayerId) -> (r: Option<&PlayerAction>)
        ensures
            match r {
                Some(a) => self@.last_action.contains_key(player_id.0)
                    && self@.last_action[player_id.0] == *a,
                None => !self@.last_action.contains_key(player_id.0),
            },
    {
        self.last_action.get(&player_id.0)
    }

    /// The deck that the engine deals from.
    pub fn deck(&self) -> (r: &Deck)
        ensures
            r@ == self@.deck,
    {
        &self.deck
    }

    /// Takes the events that have not been taken yet, oldest first.
    pub fn drain_events(&mut self) -> (r: Vec<EngineEvent>)
        ensures
            event::events_view(r@) == old(self)@.events,
            final(self)@ == (HandModel { events: Seq::empty(), ..old(self)@ }),
            old(self).sound() ==> final(self).sound(),
            old(self).wf() ==> final(self).wf(),
    {
        let mut r: Vec<EngineEvent> = Vec::new();
        r.append(&mut self.events);
        assert(r@ =~= old(self).events@);
        assert(self@ =~= (HandModel { events: Seq::empty(), ..old(self)@ }));
        r
    }

    /// The seat and the amount of the straddle, where one is forced.
    pub fn straddle_position(&self) -> (r: Option<(u8, Chips)>)
        requires
            self.sound(),
        ensures
            r == match self@.straddler() {
                Some(i) => Some((self@.seats[i].seat, self@.forced_straddle->Some_0)),
                None => None,
            },
    {
        match self.forced_straddle {
            Some(amount) => {
                let n: usize = self.seats.len();
                if n < 3 {
                    return None;
                }
                let (_, bb) = blind_positions(self.dealer_idx, n);
                proof {
                    invariants::lemma_blind_places(self@);
                }
                Some((self.seats[(bb + 1) % n].seat, amount))
            },
            None => None,
        }
    }

    /// The players who have not folded, in table order.
    pub fn non_folded_player_ids(&self) -> (r: Vec<PlayerId>)
        ensures
            r@ == seqs::pick(self@.seats, model::in_hand(), model::seat_player()),
            seqs::is_told(r@, self@.seats, |s: HandSeat| !s.folded, |s: HandSeat| s.player_id),
            r@.len() == self@.active_count(),
            r@.len() <= self@.seats.len(),
    {
        let mut ids: Vec<PlayerId> = Vec::new();
        let mut i: usize = 0;
        while i < self.seats.len()
            invariant
                i <= self.seats@.len(),
                ids@ == seqs::pick(
                    self.seats@.take(i as int),
                    model::in_hand(),
                    model::seat_player(),
                ),
            decreases self.seats@.len() - i,
        {
            proof {
                seqs::lemma_pick_take(
                    self.seats@,
                    i as int,
                    model::in_hand(),
                    model::seat_player(),
                );
            }
            if !self.seats[i].folded {
                ids.push(self.seats[i].player_id);
            }
            i = i + 1;
        }
        proof {
            assert(self.seats@.take(i as int) =~= self.seats@);
            seqs::lemma_pick_from(self.seats@, model::in_hand(), model::seat_player());
            seqs::lemma_count_bounds(self.seats@, model::in_hand());
            let places = seqs::lemma_pick_told(
                self.seats@,
                model::in_hand(),
                model::seat_player(),
            );
            assert(seqs::told_at(
                ids@,
                self@.seats,
                |s: HandSeat| !s.folded,
                |s: HandSeat| s.player_id,
                places,
            ));
        }
        ids
    }

    pub(crate) fn find_seat(&self, pid: PlayerId) -> (i: usize)
        ensures
            i == self@.seat_index(pid),
            i <= self@.seats.len(),
            i < self@.seats.len() ==> self@.seats[i as int].player_id == pid,
    {
        let mut i: usize = 0;
        while i < self.seats.len()
            invariant
                i <= self.seats@.len(),
                forall|j: int| 0 <= j < i ==> !model::is_seat_of(pid)(#[trigger] self.seats@[j]),
            decreases self.seats@.len() - i,
        {
            if self.seats[i].player_id == pid {
                proof {
                    seqs::lemma_first_index_is(self.seats@, i as int, model::is_seat_of(pid));
                }
                return i;
            }
            i = i + 1;
        }
        proof {
            seqs::lemma_first_index_is(self.seats@, i as int, model::is_seat_of(pid));
        }
        i
    }

    /// How many players have not folded.
    pub(crate) fn count_active(&self) -> (n: usize)
        ensures
            n == self@.active_count(),
            n <= self@.seats.len(),
    {
        let mut n: usize = 0;
        let mut i: usize = 0;
        while i < self.seats.len()
            invariant
                i <= self.seats@.len(),
                n <= i,
                n == seqs::count_of(self.seats@.take(i as int), model::in_hand()),
            decreases self.seats@.len() - i,
        {
            proof {
                seqs::lemma_count_take(self.seats@, i as int, model::in_hand());
            }
            if !self.seats[i].folded {
                n = n + 1;
            }
            i = i + 1;
        }
        assert(self.seats@.take(i as int) =~= self.seats@);
        n
    }

    pub(crate) fn anyone_all_in(&self) -> (r: bool)
        ensures
            r == (seqs::count_of(self@.seats, model::is_all_in()) > 0),
    {
        let mut i: usize = 0;
        proof {
            seqs::lemma_count_bounds(self.seats@, model::is_all_in());
        }
        while i < self.seats.len()
            invariant
                i <= self.seats@.len(),
                seqs::count_of(self.seats@.take(i as int), model::is_all_in()) == 0,
            decreases self.seats@.len() - i,
        {
            if self.seats[i].all_in {
                proof {
                    seqs::lemma_count_positive(self.seats@, i as int, model::is_all_in());
                }
                return true;
            }
            proof {
                seqs::lemma_count_take(self.seats@, i as int, model::is_all_in());
            }
            i = i + 1;
        }
        assert(self.seats@.take(i as int) =~= self.seats@);
        false
    }

    /// The street that is played, or on which the hand ended.
    pub(crate) fn current_street(&self) -> (s: Street)
        ensures
            s == self@.street(),
    {
        match self.phase {
            Phase::Betting(s) => s,
            Phase::Done => match self.finished_street {
                Some(s) => s,
                None => Street::Preflop,
            },
            Phase::NotStarted => Street::Preflop,
        }
    }

    /// What each seat has put in over all the streets.
    fn stakes(&self) -> (stakes: Vec<Stake>)
        requires
            self.sound(),
        ensures
            stakes@ == model::seat_stakes(self@.seats),
            seqs::sum_of(stakes@, sidepot::stake_amount()) <= u32::MAX,
    {
        let mut stakes: Vec<Stake> = Vec::new();
        let mut i: usize = 0;
        while i < self.seats.len()
            invariant
                i <= self.seats@.len(),
                self.sound(),
                stakes@ == model::seat_stakes(self.seats@).take(i as int),
            decreases self.seats@.len() - i,
        {
            let s = self.seats[i];
            assert(self@.seats[i as int].stack.0 <= self@.seats[i as int].starting_stack.0);
            stakes.push(
                Stake {
                    player_id: s.player_id,
                    amount: s.starting_stack.0 - s.stack.0,
                    live: !s.folded,
                },
            );
            assert(stakes@ =~= model::seat_stakes(self.seats@).take(i + 1));
            i = i + 1;
        }
        proof {
            assert(stakes@ =~= model::seat_stakes(self.seats@));
            invariants::lemma_committed(self@);
            invariants::lemma_pot_bounds(self@);
        }
        stakes
    }

    /// The pots of the hand, over all its streets.
    pub(crate) fn hand_side_pots(&self) -> (r: Vec<SidePot>)
        requires
            self.sound(),
        ensures
            sidepot::pots_view(r@) == self@.hand_pots(),
    {
        layer_pots(&self.stakes())
    }

    /// The pots as they are settled where nobody contests them.
    pub(crate) fn uncontested_side_pots(&self) -> (r: Vec<SidePot>)
        requires
            self.sound(),
        ensures
            sidepot::pots_view(r@) == self@.every_pot(),
    {
        layer_all(&self.stakes())
    }

    /// The pots as the table shows them.
    pub(crate) fn merged_side_pots(&self) -> (r: Vec<SidePot>)
        requires
            self.sound(),
        ensures
            sidepot::pots_view(r@) == self@.hand_pots(),
    {
        self.hand_side_pots()
    }

    /// The pots as they are settled.
    pub(crate) fn settlement_side_pots(&self) -> (r: Vec<SidePot>)
        requires
            self.sound(),
        ensures
            sidepot::pots_view(r@) == self@.hand_pots(),
    {
        self.hand_side_pots()
    }

    pub(crate) fn round_chips(&self) -> (r: u32)
        requires
            self.sound(),
        ensures
            r == self@.round_pot(),
    {
        match &self.betting_round {
            Some(r) => r.pot_total().0,
            None => 0,
        }
    }

    pub(crate) fn bet_now(&self) -> (r: u32)
        ensures
            r == self@.current_bet(),
    {
        match &self.betting_round {
            Some(r) => r.current_bet().0,
            None => 0,
        }
    }

    pub(crate) fn actor_now(&self) -> (r: Option<PlayerId>)
        requires
            self.sound(),
        ensures
            r == self@.current_actor(),
    {
        match &self.betting_round {
            Some(r) => r.current_player(),
            None => None,
        }
    }

    pub(crate) fn raise_now(&self) -> (r: Option<Chips>)
        requires
            self.sound(),
        ensures
            r == self@.open_raise(),
    {
        match &self.betting_round {
            Some(r) => {
                if r.current_player_can_raise() {
                    Some(r.min_raise_to())
                } else {
                    None
                }
            },
            None => None,
        }
    }

    pub(crate) fn number_of(&self, pid: Option<PlayerId>) -> (r: Option<u8>)
        ensures
            r == self@.seat_number(pid),
    {
        match pid {
            Some(p) => {
                let i: usize = self.find_seat(p);
                if i < self.seats.len() {
                    Some(self.seats[i].seat)
                } else {
                    None
                }
            },
            None => None,
        }
    }

    fn show_player(&self, i: usize) -> (p: SnapshotPlayer)
        requires
            i < self@.seats.len(),
        ensures
            p == self@.shown_player(i as int),
    {
        let s = self.seats[i];
        let committed = match &self.betting_round {
            Some(r) => r.player_contributed(s.player_id),
            None => Chips(0),
        };
        let last_action = match self.last_action.get(&s.player_id.0) {
            Some(a) => Some(*a),
            None => None,
        };
        SnapshotPlayer {
            player_id: s.player_id,
            stack: s.stack,
            hole_cards: s.hole_cards(),
            folded: s.folded,
            all_in: s.all_in,
            committed_this_street: committed,
            last_action,
            seat: s.seat,
        }
    }

    /// The hand as the table shows it.
    pub fn snapshot(&self) -> (r: GameSnapshot)
        requires
            self.sound(),
        ensures
            r@ == self@.snapshot(),
    {
        proof {
            invariants::lemma_pot_bounds(self@);
        }
        let pot = Chips(self.completed_pot.0 + self.round_chips());
        let ghost shown = Seq::new(self@.seats.len(), |i: int| self@.shown_player(i));
        let mut players: Vec<SnapshotPlayer> = Vec::new();
        let mut i: usize = 0;
        while i < self.seats.len()
            invariant
                i <= self.seats@.len(),
                shown == Seq::new(self@.seats.len(), |i: int| self@.shown_player(i)),
                players@ == shown.take(i as int),
            decreases self.seats@.len() - i,
        {
            players.push(self.show_player(i));
            assert(players@ =~= shown.take(i + 1));
            i = i + 1;
        }
        assert(players@ =~= shown);
        let dealer_seat: u8 = if self.seats.len() == 0 {
            0
        } else {
            self.seats[self.dealer_idx % self.seats.len()].seat
        };
        GameSnapshot {
            street: self.current_street(),
            board: self.board,
            pot,
            side_pots: self.merged_side_pots(),
            current_actor: self.actor_now(),
            min_raise_to: self.raise_now(),
            current_bet: Chips(self.bet_now()),
            players,
            dealer_seat,
        }
    }

    /// The cards that would have come on the board had the hand gone on; none
    /// while it goes on, and none where the engine does not deal. The deck is
    /// left as it is.
    pub fn undealt_board(&self) -> (r: Vec<Card>)
        requires
            self.sound(),
        ensures
            r@ == self@.missing_board(),
    {
        let mut r: Vec<Card> = Vec::new();
        if self.mode != HandMode::Plaintext || !self.is_done() {
            assert(r@ =~= self@.missing_board());
            return r;
        }
        let needed: usize = 5 - self.board.count();
        let remaining: usize = self.deck.remaining();
        let cards = self.deck.cards();
        let total: usize = cards.len();
        let start: usize = total - remaining;
        let count: usize = if needed < remaining {
            needed
        } else {
            remaining
        };
        let mut i: usize = 0;
        while i < count
            invariant
                i <= count,
                self.sound(),
                count <= self@.deck.left(),
                cards@ == self@.deck.cards,
                total == cards@.len(),
                start == self@.deck.next,
                r@ == self@.next_cards(count as int).take(i as int),
            decreases count - i,
        {
            r.push(cards[start + i]);
            assert(r@ =~= self@.next_cards(count as int).take(i + 1));
            i = i + 1;
        }
        assert(r@ =~= self@.missing_board());
        r
    }

    /// Puts the cards of a street on the board.
    pub(crate) fn set_board_for_street(&mut self, street: Street, cards: &[Card])
        requires
            cards@.len() == game::street_cards(street),
        ensures
            final(self)@ == (HandModel {
                board: model::board_with(old(self)@.board, street, cards@),
                ..old(self)@
            }),
            final(self).sound() == old(self).sound(),
    {
        match street {
            Street::Preflop => {},
            Street::Flop => {
                let flop = [cards[0], cards[1], cards[2]];
                assert(flop@ =~= cards@);
                self.board.flop = Some(flop);
            },
            Street::Turn => {
                self.board.turn = Some(cards[0]);
            },
            Street::River => {
                self.board.river = Some(cards[0]);
            },
        }
        assert(self@ =~= (HandModel {
            board: model::board_with(old(self)@.board, street, cards@),
            ..old(self)@
        }));
    }

    pub(crate) fn report(&mut self, e: EngineEvent)
        ensures
            final(self)@ == old(self)@.reporting(e@),
    {
        let ghost before = self.events@;
        self.events.push(e);
        assert(event::events_view(self.events@) =~= event::events_view(before).push(e@));
        assert(self@ =~= old(self)@.reporting(e@));
    }

    /// The bet, the least raise and the next seat at the start of a street.
    pub(crate) fn new_street_betting_state(&self) -> (r: (u64, Option<u64>, Option<u8>))
        requires
            self.sound(),
        ensures
            r.0 == self@.betting_state().current_bet,
            r.1 == self@.betting_state().min_raise_to,
            r.2 == self@.betting_state().next_actor_seat,
    {
        let min_raise_to: Option<u64> = match &self.betting_round {
            Some(r) => {
                if r.is_done() {
                    None
                } else {
                    Some(r.min_raise_to().0 as u64)
                }
            },
            None => None,
        };
        (self.bet_now() as u64, min_raise_to, self.number_of(self.actor_now()))
    }

    /// Ends the hand on the street that is played.
    pub(crate) fn set_done(&mut self)
        ensures
            final(self)@ == old(self)@.finished(),
    {
        self.finished_street = Some(self.current_street());
        self.phase = Phase::Done;
    }

    /// Brings the seats in line with the round.
    pub(crate) fn sync_stacks_from_round(&mut self)
        ensures
            final(self)@ == match old(self)@.round {
                Some(r) => old(self)@.synced(r),
                None => old(self)@,
            },
    {
        let n: usize = self.seats.len();
        let mut i: usize = 0;
        if let Some(round) = &self.betting_round {
            let ghost r = round@;
            let ghost done = old(self)@.synced(r).seats;
            let mut seats: Vec<HandSeat> = Vec::new();
            while i < n
                invariant
                    i <= n,
                    n == self.seats@.len(),
                    self.seats@ == old(self).seats@,
                    r == round@,
                    done == old(self)@.synced(r).seats,
                    seats@ == done.take(i as int),
                decreases n - i,
            {
                let s = self.seats[i];
                let states = round.player_states();
                let mut stack = s.stack;
                let mut k: usize = 0;
                while k < states.len() && states[k].player_id != s.player_id
                    invariant
                        k <= states@.len(),
                        states@ == r.players,
                        forall|j: int|
                            0 <= j < k ==> !round::is_player(s.player_id)(#[trigger] r.players[j]),
                    decreases states@.len() - k,
                {
                    k = k + 1;
                }
                proof {
                    seqs::lemma_first_index_is(r.players, k as int, round::is_player(s.player_id));
                }
                if k < states.len() {
                    stack = states[k].stack;
                }
                let all_in: bool = round.player_all_in(s.player_id);
                let folded: bool = round.player_folded(s.player_id);
                seats.push(HandSeat { stack, all_in, folded, ..s });
                assert(seats@ =~= done.take(i + 1));
                i = i + 1;
            }
            assert(seats@ =~= done);
            self.seats = seats;
            assert(self@ =~= old(self)@.synced(r));
        }
    }

    /// The first seat from `start` on that can act; `start` where none can.
    pub(crate) fn first_active_after(&self, start: usize) -> (r: usize)
        requires
            start < self@.seats.len(),
            self@.seats.len() + 2 <= u32::MAX,
        ensures
            r == self@.first_active(start as int),
            r < self@.seats.len(),
    {
        let n: usize = self.seats.len();
        let ghost row = self@.seats_from(start as int);
        let mut idx: usize = start;
        let mut i: usize = 0;
        proof {
            invariants::lemma_wrap(start as int, 0, n as int);
        }
        while i < n
            invariant
                i <= n,
                n == self.seats@.len(),
                start < n,
                n + 2 <= u32::MAX,
                row == self@.seats_from(start as int),
                idx == (start + i) % (n as int),
                forall|j: int| 0 <= j < i ==> !model::can_act_seat()(#[trigger] row[j]),
            decreases n - i,
        {
            proof {
                invariants::lemma_wrap(start as int, i as int, n as int);
            }
            assert(row[i as int] == self.seats@[idx as int]);
            if !self.seats[idx].folded && !self.seats[idx].all_in {
                proof {
                    seqs::lemma_first_index_is(row, i as int, model::can_act_seat());
                }
                return idx;
            }
            proof {
                invariants::lemma_wrap(start as int, i + 1, n as int);
            }
            idx = if idx + 1 < n {
                idx + 1
            } else {
                0
            };
            i = i + 1;
        }
        proof {
            invariants::lemma_wrap(start as int, i as int, n as int);
            seqs::lemma_first_index_is(row, i as int, model::can_act_seat());
        }
        idx
    }

    /// Puts the chips of the round to the pots.
    pub(crate) fn bank_round(&mut self)
        requires
            old(self).sound(),
        ensures
            final(self)@ == old(self)@.banked(),
            final(self).sound(),
            final(self)@.round is None,
    {
        proof {
            invariants::lemma_banked(self@);
            invariants::lemma_pot_bounds(self@);
        }
        let ghost before = self@;
        match self.betting_round.take() {
            Some(round) => {
                let new_pots = round.side_pots();
                let total: u32 = round.pot_total().0;
                self.completed_pot = Chips(self.completed_pot.0 + total);
                self.accumulate_pots(new_pots);
                assert(self@ =~= before.banked());
            },
            None => {
                assert(self@ =~= before.banked());
            },
        }
    }

    /// Adds the pots of a round that is over.
    pub(crate) fn accumulate_pots(&mut self, new_pots: Vec<SidePot>)
        ensures
            final(self)@ == (HandModel {
                street_pots: old(self)@.street_pots + sidepot::pots_view(new_pots@),
                ..old(self)@
            }),
    {
        let mut more = new_pots;
        let ghost a = self.cumulative_side_pots@;
        let ghost b = new_pots@;
        self.cumulative_side_pots.append(&mut more);
        assert(sidepot::pots_view(a + b) =~= sidepot::pots_view(a) + sidepot::pots_view(b));
        assert(self@ =~= (HandModel {
            street_pots: old(self)@.street_pots + sidepot::pots_view(new_pots@),
            ..old(self)@
        }));
    }

    /// Deals the cards of a street, or notes that they are awaited. Fails, with
    /// the deck used up, where there are not enough cards.
    fn advance_board(&mut self, street: Street) -> (r: Result<(), ActionError>)
        requires
            old(self).sound(),
        ensures
            final(self).sound(),
            r is Ok || r == Err::<(), ActionError>(ActionError::HandFinished),
            r is Err <==> old(self)@.mode == HandMode::Plaintext && old(self)@.deck.left()
                < game::street_cards(street),
            r is Ok ==> final(self)@ == old(self)@.board_advanced(street),
            r is Err ==> final(self)@ == (HandModel {
                deck: old(self)@.deck.dealt(game::street_cards(street)),
                ..old(self)@
            }),
    {
        let ghost before = self@;
        match self.mode {
            HandMode::Plaintext => {
                let count: usize = cards_for_street(street);
                let mut dealt: Vec<Card> = Vec::new();
                let mut i: usize = 0;
                while i < count
                    invariant
                        i <= count,
                        count == game::street_cards(street),
                        before == old(self)@,
                        before.mode == HandMode::Plaintext,
                        before.sound(),
                        self.deck.wf(),
                        i <= before.deck.left(),
                        dealt@ == before.next_cards(i as int),
                        self@ == (HandModel { deck: before.deck.dealt(i as int), ..before }),
                    decreases count - i,
                {
                    match self.deck.deal() {
                        Ok(card) => {
                            dealt.push(card);
                            assert(dealt@ =~= before.next_cards(i + 1));
                        },
                        Err(_) => {
                            assert(self@ =~= (HandModel {
                                deck: before.deck.dealt(game::street_cards(street)),
                                ..before
                            }));
                            return Err(ActionError::HandFinished);
                        },
                    }
                    i = i + 1;
                    assert(self@ =~= (HandModel { deck: before.deck.dealt(i as int), ..before }));
                }
                self.set_board_for_street(street, dealt.as_slice());
                let e = EngineEvent::StreetRevealed {
                    street,
                    new_cards: dealt,
                    current_bet: 0,
                    min_raise_to: None,
                    next_actor_seat: None,
                };
                self.report(e);
                assert(self@ =~= before.board_advanced(street));
                Ok(())
            },
            HandMode::Blind => {
                self.pending_board_street = Some(street);
                assert(self@ =~= before.board_advanced(street));
                Ok(())
            },
        }
    }

    /// Opens the betting on `street` for the players who are in the hand.
    fn open_round(&mut self, street: Street)
        requires
            old(self).sound(),
            old(self)@.phase is Betting,
            old(self)@.round is None,
        ensures
            final(self).sound(),
            final(self)@ == old(self)@.round_opened(street),
    {
        let ghost before = self@;
        proof {
            invariants::lemma_round_opened(before, street);
        }
        let n: usize = self.seats.len();
        let left: usize = (self.dealer_idx % n + 1) % n;
        let first_seat: usize = self.first_active_after(left);
        let first_pid = self.seats[first_seat].player_id;
        let mut entries: Vec<(PlayerId, Chips)> = Vec::new();
        let mut i: usize = 0;
        while i < n
            invariant
                i <= n,
                n == self.seats@.len(),
                entries@ == seqs::pick(
                    self.seats@.take(i as int),
                    model::in_hand(),
                    model::seat_entry(),
                ),
            decreases n - i,
        {
            proof {
                seqs::lemma_pick_take(self.seats@, i as int, model::in_hand(), model::seat_entry());
            }
            if !self.seats[i].folded {
                entries.push((self.seats[i].player_id, self.seats[i].stack));
            }
            i = i + 1;
        }
        assert(self.seats@.take(i as int) =~= self.seats@);
        let mut first: usize = 0;
        while first < entries.len() && entries[first].0 != first_pid
            invariant
                first <= entries@.len(),
                forall|j: int|
                    0 <= j < first ==> !model::is_entry_of(first_pid)(#[trigger] entries@[j]),
            decreases entries@.len() - first,
        {
            first = first + 1;
        }
        proof {
            seqs::lemma_first_index_is(entries@, first as int, model::is_entry_of(first_pid));
        }
        if first == entries.len() {
            first = 0;
        }
        let round = BettingRound::new(entries, first, Chips(0), self.big_blind);
        self.phase = Phase::Betting(street);
        self.betting_round = Some(round);
        assert(self@ =~= before.round_opened(street));
    }

    /// Fills the betting state into the last event where that shows a new street.
    fn report_state(&mut self)
        requires
            old(self).sound(),
        ensures
            final(self)@ == old(self)@.state_reported(),
            final(self).sound(),
    {
        let ghost before = self@;
        let (current_bet, min_raise_to, next_actor_seat) = self.new_street_betting_state();
        let ghost events = self.events@;
        match self.events.pop() {
            Some(last) => {
                assert(event::events_view(events).last() == last@);
                let back = match last {
                    EngineEvent::StreetRevealed { street, new_cards, .. } => {
                        EngineEvent::StreetRevealed {
                            street,
                            new_cards,
                            current_bet,
                            min_raise_to,
                            next_actor_seat,
                        }
                    },
                    other => other,
                };
                self.events.push(back);
                assert(event::events_view(self.events@) =~= event::events_view(events).drop_last(
                ).push(
                    back@,
                ));
                assert(event::events_view(events).drop_last().push(last@) =~= event::events_view(events));
                assert(self@ =~= before.state_reported());
            },
            None => {
                assert(self@ =~= before.state_reported());
            },
        }
    }

    /// Ends the betting on a street: puts its chips to the pots and opens the
    /// next street, or ends the hand. Streets on which nobody can bet are run
    /// out at once where the engine deals.
    pub(crate) fn close_street_and_advance(&mut self) -> (r: Result<GameSnapshot, ActionError>)
        requires
            old(self).sound(),
            old(self)@.phase is Betting,
        ensures
            final(self).sound(),
            final(self)@ == old(self)@.street_closed().0,
            match old(self)@.street_closed().1 {
                Ok(()) => r is Ok && r->Ok_0@ == final(self)@.snapshot(),
                Err(e) => r == Err::<GameSnapshot, ActionError>(e),
            },
        decreases 3 - old(self)@.street().order(),
    {
        self.bank_round();
        let next: Option<Street> = match self.current_street() {
            Street::Preflop => Some(Street::Flop),
            Street::Flop => Some(Street::Turn),
            Street::Turn => Some(Street::River),
            Street::River => None,
        };
        if self.count_active() <= 1 {
            self.set_done();
            return Ok(self.snapshot());
        }
        match next {
            None => {
                self.set_done();
                Ok(self.snapshot())
            },
            Some(street) => {
                if let Err(e) = self.advance_board(street) {
                    return Err(e);
                }
                self.open_round(street);
                self.report_state();
                let closed: bool = match &self.betting_round {
                    Some(r) => r.is_done(),
                    None => false,
                };
                if self.mode == HandMode::Plaintext && closed {
                    return self.close_street_and_advance();
                }
                Ok(self.snapshot())
            },
        }
    }

    /// Whether `card` is on the board, or in a hand that was shown.
    fn knows_card(&self, card: Card) -> (r: bool)
        ensures
            r == self@.knows(card),
    {
        let board = self.board.all_cards();
        let mut i: usize = 0;
        while i < board.len()
            invariant
                i <= board@.len(),
                board@ == self@.board.cards(),
                forall|j: int| 0 <= j < i ==> board@[j] != card,
            decreases board@.len() - i,
        {
            if board[i] == card {
                return true;
            }
            i = i + 1;
        }
        let mut k: usize = 0;
        while k < self.seats.len()
            invariant
                k <= self.seats@.len(),
                forall|j: int| 0 <= j < k ==> !model::shows_card(#[trigger] self.seats@[j], card),
            decreases self.seats@.len() - k,
        {
            if let HoleSlot::Revealed(h) = self.seats[k].hole {
                if h.card1 == card || h.card2 == card {
                    assert(model::shows_card(self@.seats[k as int], card));
                    return true;
                }
            }
            k = k + 1;
        }
        false
    }

    /// Refuses cards that are known already, or that are given twice.
    pub(crate) fn check_injected_cards_unique(&self, injected: &[Card]) -> (r: Result<
        (),
        BlindInjectError,
    >)
        ensures
            r == match self@.first_known(injected@, 0) {
                Some(card) => Err::<(), BlindInjectError>(BlindInjectError::DuplicateCard { card }),
                None => Ok(()),
            },
    {
        let mut i: usize = 0;
        while i < injected.len()
            invariant
                i <= injected@.len(),
                self@.first_known(injected@, i as int) == self@.first_known(injected@, 0),
            decreases injected@.len() - i,
        {
            let card = injected[i];
            let mut twice: bool = false;
            let mut j: usize = 0;
            while j < i
                invariant
                    j <= i,
                    i < injected@.len(),
                    card == injected@[i as int],
                    twice == injected@.take(j as int).contains(card),
                decreases i - j,
            {
                assert(injected@.take(j + 1) =~= injected@.take(j as int).push(
                    injected@[j as int],
                ));
                proof {
                    invariants::lemma_push_contains(
                        injected@.take(j as int),
                        injected@[j as int],
                        card,
                    );
                }
                if injected[j] == card {
                    twice = true;
                }
                j = j + 1;
            }
            if twice || self.knows_card(card) {
                return Err(BlindInjectError::DuplicateCard { card });
            }
            i = i + 1;
        }
        Ok(())
    }

    /// Puts the awaited cards of a street on the board. Refused cards change nothing.
    pub fn inject_board_for_street(&mut self, cards: &[Card]) -> (r: Result<
        GameSnapshot,
        BlindInjectError,
    >)
        requires
            old(self).sound(),
        ensures
            final(self).sound(),
            old(self).wf() ==> final(self).wf(),
            match old(self)@.board_refusal(cards@) {
                Some(e) => r == Err::<GameSnapshot, BlindInjectError>(e) && final(self)@
                    == old(self)@,
                None => {
                    &&& r is Ok
                    &&& r->Ok_0@ == final(self)@.snapshot()
                    &&& final(self)@ == old(self)@.board_taken(cards@)
                },
            },
    {
        let ghost before = self@;
        if self.mode != HandMode::Blind {
            return Err(BlindInjectError::NotBlindMode);
        }
        let street = match self.pending_board_street {
            Some(s) => s,
            None => {
                return Err(BlindInjectError::NoBoardPending);
            },
        };
        if street == Street::Preflop {
            return Err(BlindInjectError::NoBoardPending);
        }
        let expected: usize = cards_for_street(street);
        if cards.len() != expected {
            return Err(
                BlindInjectError::WrongBoardCount { street, expected, got: cards.len() },
            );
        }
        if let Err(e) = self.check_injected_cards_unique(cards) {
            return Err(e);
        }
        self.set_board_for_street(street, cards);
        let (current_bet, min_raise_to, next_actor_seat) = self.new_street_betting_state();
        let mut new_cards: Vec<Card> = Vec::new();
        new_cards.extend_from_slice(cards);
        assert(new_cards@ =~= cards@);
        let e = EngineEvent::StreetRevealed {
            street,
            new_cards,
            current_bet,
            min_raise_to,
            next_actor_seat,
        };
        self.report(e);
        self.pending_board_street = None;
        assert(self@ =~= before.board_shown(cards@));
        let closed: bool = match &self.betting_round {
            Some(r) => r.is_done(),
            None => false,
        };
        if closed {
            proof {
                invariants::lemma_blind_closes(self@);
                invariants::lemma_street_closed(self@);
            }
            return match self.close_street_and_advance() {
                Ok(s) => Ok(s),
                Err(_) => Err(BlindInjectError::NoBoardPending),
            };
        }
        Ok(self.snapshot())
    }

    /// Takes the cards that a player shows at the end of a hand whose cards
    /// were dealt elsewhere. Showing the same cards again changes nothing.
    /// Refused cards change nothing.
    pub fn inject_showdown_reveal(&mut self, player_id: PlayerId, hole_cards: HoleCards) -> (r:
        Result<(), BlindInjectError>)
        requires
            old(self).sound(),
        ensures
            final(self).sound(),
            old(self).wf() ==> final(self).wf(),
            match old(self)@.reveal_refusal(player_id, hole_cards) {
                Some(e) => r == Err::<(), BlindInjectError>(e) && final(self)@ == old(self)@,
                None => r == Ok::<(), BlindInjectError>(()) && final(self)@
                    == old(self)@.revealed(player_id, hole_cards),
            },
    {
        let ghost before = self@;
        if self.mode != HandMode::Blind {
            return Err(BlindInjectError::NotBlindMode);
        }
        if self.phase != Phase::Done {
            return Err(BlindInjectError::NotAtShowdown);
        }
        let i: usize = self.find_seat(player_id);
        if i >= self.seats.len() {
            return Err(BlindInjectError::UnknownPlayer(player_id));
        }
        let s = self.seats[i];
        if s.folded {
            return Err(BlindInjectError::PlayerFolded(player_id));
        }
        if let HoleSlot::Revealed(existing) = s.hole {
            if existing == hole_cards {
                assert(before.revealed(player_id, hole_cards) =~= before) by {
                    assert(before.seats.update(i as int, before.seats[i as int])
                        =~= before.seats);
                }
                return Ok(());
            }
            return Err(BlindInjectError::AlreadyRevealed(player_id));
        }
        let two = hole_cards.as_array();
        if let Err(e) = self.check_injected_cards_unique(&two) {
            return Err(e);
        }
        self.seats[i] = HandSeat { hole: HoleSlot::Revealed(hole_cards), ..s };
        assert(self@ =~= before.revealed(player_id, hole_cards));
        proof {
            invariants::lemma_revealed(before, player_id, hole_cards);
        }
        Ok(())
    }

    /// Gives a player known hole cards, and the hand a fresh deck of all cards
    /// but these. Does nothing where the player is not in the hand.
    pub fn override_hole_cards_for_test(&mut self, player_id: PlayerId, cards: HoleCards)
        requires
            old(self).sound(),
        ensures
            final(self).sound(),
            old(self).wf() && (old(self)@.phase is NotStarted ==> old(self)@.actions.len() == 0)
                ==> final(self).wf(),
            final(self)@ == old(self)@.overridden(player_id, cards),
    {
        let ghost before = self@;
        let i: usize = self.find_seat(player_id);
        if i >= self.seats.len() {
            return;
        }
        let s = self.seats[i];
        self.seats[i] = HandSeat { hole: HoleSlot::Plain(cards), ..s };
        let mut rest: Vec<Card> = Vec::new();
        let ghost same = |c: Card| c;
        let all = self.deck.cards();
        let mut k: usize = 0;
        while k < all.len()
            invariant
                k <= all@.len(),
                same == (|c: Card| c),
                rest@ == seqs::pick(all@.take(k as int), model::neither_of(cards), same),
            decreases all@.len() - k,
        {
            proof {
                seqs::lemma_pick_take(all@, k as int, model::neither_of(cards), same);
            }
            let c = all[k];
            if c != cards.card1 && c != cards.card2 {
                rest.push(c);
            }
            k = k + 1;
        }
        assert(all@.take(k as int) =~= all@);
        self.deck = Deck::from_cards(rest);
        assert(self@ =~= before.overridden(player_id, cards));
        proof {
            invariants::lemma_overridden(before, player_id, cards);
        }
    }
}

} // verus!
