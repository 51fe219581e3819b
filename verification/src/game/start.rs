//! Setting a hand up and beginning it.

use crate::action::{ActionError, ActionRecord, BlindKind, PlayerAction};
use crate::card::Card;
use crate::deck::{Deck, DeckModel};
use crate::deck;
use crate::event::EngineEvent;
use crate::game::invariants;
use crate::game::model;
use crate::hand::{BoardCards, BoardModel, HoleCards, Street};
use crate::player::{Chips, PlayerId};
use crate::rng::{DeckSeed, PokerRng};
use crate::rng;
use crate::round::{BettingRound, SidePot};
use crate::round;
use crate::seqs;
use crate::sidepot;
use std::collections::HashMap;
use super::model::{HandModel, OpeningPosts};
use super::{blind_positions, GameHand, GameSnapshot, HandMode, HandSeat, HoleSlot, Phase};
use vstd::prelude::*;

verus! {

/// The players who sit down: their numbers.
pub open spec fn sitting_ids(players: Seq<(PlayerId, Chips, u8)>) -> Seq<PlayerId> {
    Seq::new(players.len(), |i: int| players[i].0)
}

/// Players who can sit down together: no number occurs twice, and the seats can be counted.
pub open spec fn can_sit(players: Seq<(PlayerId, Chips, u8)>) -> bool {
    players.len() + 2 <= u32::MAX && seqs::distinct(sitting_ids(players))
}

/// The seats of players who sit down.
pub open spec fn fresh_seats(players: Seq<(PlayerId, Chips, u8)>, hole: HoleSlot) -> Seq<
    HandSeat,
> {
    Seq::new(
        players.len(),
        |i: int|
            HandSeat {
                player_id: players[i].0,
                starting_stack: players[i].1,
                stack: players[i].1,
                hole,
                folded: false,
                all_in: false,
                seat: players[i].2,
            },
    )
}

/// A hand before it begins.
pub open spec fn fresh_hand(
    players: Seq<(PlayerId, Chips, u8)>,
    dealer_idx: usize,
    big_blind: Chips,
    small_blind: Chips,
    mode: HandMode,
    deck: DeckModel,
    deck_seed: DeckSeed,
) -> HandModel {
    HandModel {
        seats: fresh_seats(
            players,
            if mode == HandMode::Blind {
                HoleSlot::Opaque
            } else {
                HoleSlot::Empty
            },
        ),
        dealer_idx,
        big_blind,
        small_blind,
        forced_straddle: None,
        preflop_bring_in: big_blind,
        mode,
        deck,
        deck_seed,
        board: BoardModel::empty(),
        phase: Phase::NotStarted,
        round: None,
        completed_pot: Chips(0),
        street_pots: Seq::empty(),
        actions: Seq::empty(),
        action_seq: 0,
        last_action: Map::empty(),
        events: Seq::empty(),
        pending_board_street: None,
        finished_street: None,
    }
}

/// A fresh hand is in order.
pub proof fn lemma_fresh_hand(
    players: Seq<(PlayerId, Chips, u8)>,
    dealer_idx: usize,
    big_blind: Chips,
    small_blind: Chips,
    mode: HandMode,
    deck: DeckModel,
    deck_seed: DeckSeed,
)
    requires
        can_sit(players),
        deck.wf(),
    ensures
        fresh_hand(players, dealer_idx, big_blind, small_blind, mode, deck, deck_seed).wf(),
{
    let m = fresh_hand(players, dealer_idx, big_blind, small_blind, mode, deck, deck_seed);
    assert(model::seat_ids(m.seats) =~= sitting_ids(players));
    sidepot::lemma_sum_zero(m.seats, model::put_in());
}

impl GameHand {
    fn assemble(
        players: &Vec<(PlayerId, Chips, u8)>,
        dealer_idx: usize,
        big_blind: Chips,
        small_blind: Chips,
        mode: HandMode,
        deck: Deck,
        deck_seed: DeckSeed,
    ) -> (h: Self)
        requires
            can_sit(players@),
            deck.wf(),
        ensures
            h.wf(),
            h@ == fresh_hand(
                players@,
                dealer_idx,
                big_blind,
                small_blind,
                mode,
                deck@,
                deck_seed,
            ),
    {
        let hole = if mode == HandMode::Blind {
            HoleSlot::Opaque
        } else {
            HoleSlot::Empty
        };
        let mut seats: Vec<HandSeat> = Vec::new();
        let mut i: usize = 0;
        while i < players.len()
            invariant
                i <= players@.len(),
                seats@ == fresh_seats(players@, hole).take(i as int),
            decreases players@.len() - i,
        {
            let p = players[i];
            seats.push(
                HandSeat {
                    player_id: p.0,
                    starting_stack: p.1,
                    stack: p.1,
                    hole,
                    folded: false,
                    all_in: false,
                    seat: p.2,
                },
            );
            assert(seats@ =~= fresh_seats(players@, hole).take(i + 1));
            i = i + 1;
        }
        assert(seats@ =~= fresh_seats(players@, hole));
        let h = GameHand {
            seats,
            dealer_idx,
            big_blind,
            small_blind,
            forced_straddle: None,
            preflop_bring_in: big_blind,
            mode,
            deck,
            deck_seed,
            board: BoardCards::empty(),
            phase: Phase::NotStarted,
            betting_round: None,
            completed_pot: Chips(0),
            cumulative_side_pots: Vec::new(),
            actions: Vec::new(),
            action_seq: 0,
            last_action: HashMap::new(),
            events: Vec::new(),
            pending_board_street: None,
            finished_street: None,
        };
        assert(h@ =~= fresh_hand(
            players@,
            dealer_idx,
            big_blind,
            small_blind,
            mode,
            deck@,
            deck_seed,
        ));
        proof {
            lemma_fresh_hand(
                players@,
                dealer_idx,
                big_blind,
                small_blind,
                mode,
                deck@,
                deck_seed,
            );
        }
        h
    }

    /// A hand with a deck shuffled by the operating system's randomness.
    /// `players` are in table order, with their stacks and seat numbers. A
    /// button beyond the table wraps round it.
    pub fn new(
        players: Vec<(PlayerId, Chips, u8)>,
        dealer_idx: usize,
        big_blind: Chips,
        small_blind: Chips,
    ) -> (h: Self)
        requires
            can_sit(players@),
        ensures
            h.wf(),
            h@ == fresh_hand(
                players@,
                dealer_idx,
                big_blind,
                small_blind,
                HandMode::Plaintext,
                DeckModel {
                    cards: deck::shuffled(
                        deck::fresh_cards(),
                        51,
                        rng::key_stream(h@.deck_seed@),
                    ).0,
                    next: 0,
                },
                h@.deck_seed,
            ),
    {
        let rng = PokerRng::from_os();
        Self::new_with_rng(players, dealer_idx, big_blind, small_blind, rng)
    }

    /// A hand with a deck shuffled by `rng`.
    pub fn new_with_rng(
        players: Vec<(PlayerId, Chips, u8)>,
        dealer_idx: usize,
        big_blind: Chips,
        small_blind: Chips,
        rng: PokerRng,
    ) -> (h: Self)
        requires
            can_sit(players@),
        ensures
            h.wf(),
            h@ == fresh_hand(
                players@,
                dealer_idx,
                big_blind,
                small_blind,
                HandMode::Plaintext,
                DeckModel { cards: deck::shuffled(
                    deck::fresh_cards(),
                    51,
                    rng.stream(),
                ).0, next: 0 },
                rng.recorded(),
            ),
    {
        let mut rng = rng;
        let deck = Deck::new(&mut rng);
        let seed = rng.seed();
        Self::new_with_deck(players, dealer_idx, big_blind, small_blind, deck, seed)
    }

    /// A hand dealt from `deck`. `deck_seed` is recorded as it is.
    pub fn new_with_deck(
        players: Vec<(PlayerId, Chips, u8)>,
        dealer_idx: usize,
        big_blind: Chips,
        small_blind: Chips,
        deck: Deck,
        deck_seed: DeckSeed,
    ) -> (h: Self)
        requires
            can_sit(players@),
            deck.wf(),
        ensures
            h.wf(),
            h@ == fresh_hand(
                players@,
                dealer_idx,
                big_blind,
                small_blind,
                HandMode::Plaintext,
                deck@,
                deck_seed,
            ),
    {
        Self::assemble(
            &players,
            dealer_idx,
            big_blind,
            small_blind,
            HandMode::Plaintext,
            deck,
            deck_seed,
        )
    }

    /// A hand whose cards are dealt elsewhere. The engine knows no hole cards,
    /// and has no deck.
    pub fn new_blind(
        players: Vec<(PlayerId, Chips, u8)>,
        dealer_idx: usize,
        big_blind: Chips,
        small_blind: Chips,
        deck_seed: DeckSeed,
    ) -> (h: Self)
        requires
            can_sit(players@),
        ensures
            h.wf(),
            h@ == fresh_hand(
                players@,
                dealer_idx,
                big_blind,
                small_blind,
                HandMode::Blind,
                DeckModel { cards: Seq::empty(), next: 0 },
                deck_seed,
            ),
    {
        let deck = Deck::from_cards(Vec::new());
        Self::assemble(
            &players,
            dealer_idx,
            big_blind,
            small_blind,
            HandMode::Blind,
            deck,
            deck_seed,
        )
    }

    /// Forces a straddle of `amount` on the player after the big blind; none
    /// where the amount is zero. With two players there is no straddle.
    pub fn with_forced_straddle(self, amount: Chips) -> (h: Self)
        ensures
            h@ == (HandModel {
                forced_straddle: if amount.0 > 0 {
                    Some(amount)
                } else {
                    None
                },
                ..self@
            }),
            self.sound() ==> h.sound(),
            self.wf() ==> h.wf(),
    {
        let mut h = self;
        h.forced_straddle = if amount.0 > 0 {
            Some(amount)
        } else {
            None
        };
        h
    }

    /// Whether all the chips together can be counted in a `u32`.
    fn chips_countable(&self) -> (r: bool)
        ensures
            r == (self@.starting_total() <= u32::MAX),
    {
        let mut total: u32 = 0;
        let mut i: usize = 0;
        while i < self.seats.len()
            invariant
                i <= self.seats@.len(),
                total == seqs::sum_of(self.seats@.take(i as int), model::start_chips()),
            decreases self.seats@.len() - i,
        {
            proof {
                seqs::lemma_sum_take(self.seats@, i as int, model::start_chips());
                seqs::lemma_sum_prefix(self.seats@, i + 1, model::start_chips());
            }
            match total.checked_add(self.seats[i].starting_stack.0) {
                Some(t) => {
                    total = t;
                },
                None => {
                    return false;
                },
            }
            i = i + 1;
        }
        assert(self.seats@.take(i as int) =~= self.seats@);
        true
    }

    fn posted_by(&self, i: usize, amount: Chips) -> (r: u32)
        requires
            i < self@.seats.len(),
        ensures
            r == self@.post_of(i as int, amount),
    {
        if amount.0 < self.seats[i].stack.0 {
            amount.0
        } else {
            self.seats[i].stack.0
        }
    }

    fn record_post(&mut self, i: usize, kind: BlindKind, amount: Chips, pot_before: u32)
        requires
            i < old(self)@.seats.len(),
            pot_before + old(self)@.post_of(i as int, amount) <= u32::MAX,
        ensures
            final(self)@ == old(self)@.recorded_post(i as int, kind, amount, pot_before as int),
    {
        let posted: u32 = self.posted_by(i, amount);
        let s = self.seats[i];
        let action = PlayerAction::Blind { kind, amount: Chips(posted) };
        self.actions.push(
            ActionRecord {
                seq: self.action_seq,
                street: Street::Preflop,
                player_id: s.player_id,
                action,
                amount: Chips(posted),
                stack_before: s.stack,
                stack_after: Chips(s.stack.0 - posted),
                pot_before: Chips(pot_before),
                pot_after: Chips(pot_before + posted),
            },
        );
        self.last_action.insert(s.player_id.0, action);
        self.action_seq = self.action_seq.saturating_add(1);
        assert(self@ =~= old(self)@.recorded_post(i as int, kind, amount, pot_before as int));
    }

    fn deal_round_of_cards(&mut self) -> (r: Result<Vec<Card>, ActionError>)
        requires
            old(self).deck.wf(),
        ensures
            final(self)@ == (HandModel {
                deck: old(self)@.deck.dealt(old(self)@.seats.len() as int),
                ..old(self)@
            }),
            final(self).deck.wf(),
            r is Ok <==> old(self)@.deck.left() >= old(self)@.seats.len(),
            r matches Ok(v) ==> v@ == old(self)@.next_cards(old(self)@.seats.len() as int),
            r matches Err(e) ==> e == ActionError::HandFinished,
    {
        let ghost before = self@;
        let n: usize = self.seats.len();
        let mut cards: Vec<Card> = Vec::new();
        let mut i: usize = 0;
        assert(cards@ =~= before.next_cards(0));
        while i < n
            invariant
                i <= n,
                n == before.seats.len(),
                before == old(self)@,
                before.deck.wf(),
                self.deck.wf(),
                i <= before.deck.left(),
                cards@ == before.next_cards(i as int),
                self@ == (HandModel { deck: before.deck.dealt(i as int), ..before }),
            decreases n - i,
        {
            match self.deck.deal() {
                Ok(card) => {
                    cards.push(card);
                    assert(cards@ =~= before.next_cards(i + 1));
                },
                Err(_) => {
                    assert(self@ =~= (HandModel { deck: before.deck.dealt(n as int), ..before }));
                    return Err(ActionError::HandFinished);
                },
            }
            i = i + 1;
            assert(self@ =~= (HandModel { deck: before.deck.dealt(i as int), ..before }));
        }
        Ok(cards)
    }

    /// Deals two cards to every seat, one at a time round the table.
    fn deal_holes(&mut self) -> (r: Result<(), ActionError>)
        requires
            old(self).deck.wf(),
            old(self)@.seats.len() + 2 <= u32::MAX,
        ensures
            final(self)@ == old(self)@.holes_dealt(),
            final(self).deck.wf(),
            r == if old(self)@.can_deal() {
                Ok::<(), ActionError>(())
            } else {
                Err(ActionError::HandFinished)
            },
    {
        let ghost before = self@;
        if self.mode == HandMode::Blind {
            return Ok(());
        }
        let n: usize = self.seats.len();
        let first = match self.deal_round_of_cards() {
            Ok(v) => v,
            Err(e) => {
                assert(self@ =~= before.holes_dealt());
                return Err(e);
            },
        };
        let second = match self.deal_round_of_cards() {
            Ok(v) => v,
            Err(e) => {
                assert(self@ =~= before.holes_dealt());
                return Err(e);
            },
        };
        let ghost done = before.holes_dealt();
        let mut i: usize = 0;
        while i < n
            invariant
                i <= n,
                n == before.seats.len(),
                n == self.seats@.len(),
                done == before.holes_dealt(),
                before.mode == HandMode::Plaintext,
                before.deck.wf(),
                before.can_deal(),
                self.deck.wf(),
                first@ == before.next_cards(n as int),
                second@ == before.deck.cards.subrange(
                    before.deck.next + n,
                    before.deck.next + 2 * n,
                ),
                forall|k: int| 0 <= k < i ==> #[trigger] self.seats@[k] == done.seats[k],
                forall|k: int| i <= k < n ==> #[trigger] self.seats@[k] == before.seats[k],
                self@ == (HandModel { seats: self.seats@, deck: done.deck, ..before }),
            decreases n - i,
        {
            let s = self.seats[i];
            self.seats[i] = HandSeat {
                hole: HoleSlot::Plain(HoleCards::new(first[i], second[i])),
                ..s
            };
            assert(self@ =~= (HandModel { seats: self.seats@, deck: done.deck, ..before }));
            assert(self.seats@[i as int] == done.seats[i as int]);
            i = i + 1;
        }
        assert(self.seats@ =~= done.seats);
        assert(self@ =~= done);
        Ok(())
    }

    fn report_post(&mut self, i: usize, kind: BlindKind, posted: u32, action_seq: u16)
        requires
            old(self).sound(),
            i < old(self)@.seats.len(),
        ensures
            final(self)@ == old(self)@.reporting(
                old(self)@.post_event(i as int, kind, posted, action_seq),
            ),
            final(self).sound(),
    {
        let min_raise_to: Option<u64> = match &self.betting_round {
            Some(r) => Some(r.min_raise_to().0 as u64),
            None => None,
        };
        let e = EngineEvent::ActionApplied {
            seat: self.seats[i].seat,
            action: PlayerAction::Blind { kind, amount: Chips(posted) },
            contributed: posted as u64,
            current_bet: self.bet_now() as u64,
            min_raise_to,
            next_actor_seat: self.number_of(self.actor_now()),
            action_seq,
        };
        self.report(e);
    }

    fn report_deal(&mut self)
        requires
            old(self).sound(),
        ensures
            final(self)@ == (HandModel {
                events: old(self)@.events + old(self)@.deal_events(
                    old(self)@.seats.len() as int,
                ),
                ..old(self)@
            }),
            final(self).sound(),
    {
        let ghost before = self@;
        let mut i: usize = 0;
        assert(before.events + before.deal_events(0) =~= before.events);
        while i < self.seats.len()
            invariant
                i <= before.seats.len(),
                before.sound(),
                self@ == (HandModel {
                    events: before.events + before.deal_events(i as int),
                    ..before
                }),
            decreases before.seats.len() - i,
        {
            let s = self.seats[i];
            assert(s == before.seats[i as int]);
            if let Some(h) = s.hole_cards() {
                let e = EngineEvent::HoleCardsDealt { seat: s.seat, cards: h.as_array() };
                let ghost so_far = before.deal_events(i as int);
                self.report(e);
                assert((before.events + so_far).push(e@) =~= before.events + so_far.push(e@));
            }
            i = i + 1;
            assert(self@ =~= (HandModel {
                events: before.events + before.deal_events(i as int),
                ..before
            }));
        }
    }

    /// Opens the first round and posts the forced bets.
    fn open_preflop(&mut self)
        requires
            round::can_seat(old(self)@.entries()),
            2 <= old(self)@.seats.len(),
            old(self)@.seats.len() + 2 <= u32::MAX,
        ensures
            final(self)@ == old(self)@.preflop_opened(),
    {
        let ghost before = self@;
        let n: usize = self.seats.len();
        proof {
            invariants::lemma_blind_places(before);
        }
        let (sb, bb) = blind_positions(self.dealer_idx, n);
        let mut posts: Vec<(PlayerId, Chips)> = Vec::new();
        posts.push((self.seats[sb].player_id, Chips(self.posted_by(sb, self.small_blind))));
        posts.push((self.seats[bb].player_id, Chips(self.posted_by(bb, self.big_blind))));
        let mut bring_in = self.big_blind;
        let mut first: usize = (bb + 1) % n;
        if let Some(amount) = self.forced_straddle {
            if n >= 3 {
                let i: usize = (bb + 1) % n;
                let posted: u32 = self.posted_by(i, amount);
                posts.push((self.seats[i].player_id, Chips(posted)));
                if posted >= amount.0 {
                    bring_in = amount;
                }
                first = (i + 1) % n;
            }
        }
        assert(posts@ =~= before.posts());
        let mut entries: Vec<(PlayerId, Chips)> = Vec::new();
        let mut i: usize = 0;
        while i < n
            invariant
                i <= n,
                n == self.seats@.len(),
                self.seats@ == before.seats,
                entries@ == before.entries().take(i as int),
            decreases n - i,
        {
            entries.push((self.seats[i].player_id, self.seats[i].stack));
            assert(entries@ =~= before.entries().take(i + 1));
            i = i + 1;
        }
        assert(entries@ =~= before.entries());
        self.preflop_bring_in = bring_in;
        let round = BettingRound::new_preflop(entries, first, posts.as_slice(), bring_in);
        self.phase = Phase::Betting(Street::Preflop);
        self.betting_round = Some(round);
        self.sync_stacks_from_round();
        assert(self@ =~= before.preflop_opened());
    }

    /// Begins the hand: posts the forced bets, deals the hole cards and opens
    /// the betting. Where nobody can bet, the hand is run out at once. A hand
    /// that has begun, whose chips cannot be counted, or with fewer than two
    /// players, is refused unchanged. Where the deck is too short the attempt
    /// fails with the forced bets on record but no chip moved.
    pub fn start(&mut self) -> (r: Result<GameSnapshot, ActionError>)
        requires
            old(self).wf(),
        ensures
            final(self).wf(),
            final(self)@ == old(self)@.started().0,
            match old(self)@.started().1 {
                Ok(()) => r is Ok && r->Ok_0@ == final(self)@.snapshot(),
                Err(e) => r == Err::<GameSnapshot, ActionError>(e),
            },
    {
        let ghost before = self@;
        if self.phase != Phase::NotStarted {
            return Err(ActionError::HandFinished);
        }
        if !self.chips_countable() {
            return Err(ActionError::InvalidAction);
        }
        let n: usize = self.seats.len();
        if n < 2 {
            return Err(ActionError::NotInHand);
        }
        proof {
            invariants::lemma_blind_places(before);
            lemma_posts_fit(before);
            lemma_recorded(before);
        }
        self.announce();
        let sb_seq: u16 = self.action_seq;
        let (sb, bb) = blind_positions(self.dealer_idx, n);
        let sb_posted: u32 = self.posted_by(sb, self.small_blind);
        let bb_posted: u32 = self.posted_by(bb, self.big_blind);
        let straddle: Option<(usize, u32)> = match self.straddle_post() {
            Some((i, amount)) => Some((i, self.posted_by(i, amount))),
            None => None,
        };
        self.record_blinds();
        if let Err(e) = self.deal_holes() {
            proof {
                lemma_failed_start(before);
            }
            return Err(e);
        }
        let ghost m3 = self@;
        proof {
            lemma_dealt(before);
            invariants::lemma_preflop_opened(m3);
        }
        self.open_preflop();
        let ghost m4 = self@;
        proof {
            lemma_opening_reported(m4, before.opening_posts());
        }
        self.report_opening(sb, sb_posted, bb, bb_posted, straddle, sb_seq);
        let ghost m5 = self@;
        assert(m5 == m4.opening_reported(before.opening_posts()));
        proof {
            invariants::lemma_street_closed(m5);
        }
        let closed: bool = match &self.betting_round {
            Some(r) => r.is_done(),
            None => false,
        };
        if closed {
            return self.close_street_and_advance();
        }
        Ok(self.snapshot())
    }

    /// Where a forced straddle is posted, and how much it should be.
    fn straddle_post(&self) -> (r: Option<(usize, Chips)>)
        requires
            self@.seats.len() + 2 <= u32::MAX,
        ensures
            match r {
                Some((i, amount)) => self@.straddler() == Some(i as int) && self@.forced_straddle
                    == Some(amount) && i < self@.seats.len(),
                None => self@.straddler() is None,
            },
    {
        match self.forced_straddle {
            Some(amount) => {
                let n: usize = self.seats.len();
                if n < 3 {
                    return None;
                }
                let (_, bb) = blind_positions(self.dealer_idx, n);
                proof {
                    invariants::lemma_blind_places(self@);
                }
                Some(((bb + 1) % n, amount))
            },
            None => None,
        }
    }

    /// Reports that the hand begins.
    fn announce(&mut self)
        requires
            2 <= old(self)@.seats.len(),
            old(self)@.seats.len() + 2 <= u32::MAX,
        ensures
            final(self)@ == old(self)@.announced(),
    {
        let n: usize = self.seats.len();
        proof {
            invariants::lemma_blind_places(self@);
        }
        let (sb, bb) = blind_positions(self.dealer_idx, n);
        let straddle = self.straddle_post();
        let started = EngineEvent::HandStarted {
            dealer_seat: self.seats[self.dealer_idx % n].seat,
            sb_seat: self.seats[sb].seat,
            bb_seat: self.seats[bb].seat,
            big_blind: self.big_blind.0 as u64,
            small_blind: self.small_blind.0 as u64,
            straddle_seat: match straddle {
                Some((i, _)) => Some(self.seats[i].seat),
                None => None,
            },
            straddle_amount: match straddle {
                Some((_, amount)) => Some(amount.0 as u64),
                None => None,
            },
            deck_seed: self.deck_seed,
        };
        self.report(started);
        assert(self@ =~= old(self)@.announced());
    }

    /// Puts the forced bets on record.
    fn record_blinds(&mut self)
        requires
            2 <= old(self)@.seats.len(),
            old(self)@.seats.len() + 2 <= u32::MAX,
            invariants::posts_total(old(self)@) <= u32::MAX,
        ensures
            final(self)@ == old(self)@.blinds_recorded(),
    {
        let ghost before = self@;
        let n: usize = self.seats.len();
        proof {
            invariants::lemma_blind_places(before);
        }
        let (sb, bb) = blind_positions(self.dealer_idx, n);
        let straddle = self.straddle_post();
        let sb_posted: u32 = self.posted_by(sb, self.small_blind);
        let bb_posted: u32 = self.posted_by(bb, self.big_blind);
        self.record_post(sb, BlindKind::Small, self.small_blind, 0);
        self.record_post(bb, BlindKind::Big, self.big_blind, sb_posted);
        if let Some((i, amount)) = straddle {
            self.record_post(i, BlindKind::Straddle, amount, sb_posted + bb_posted);
        }
    }

    /// Reports the forced bets, the pot and the deal.
    fn report_opening(
        &mut self,
        sb: usize,
        sb_posted: u32,
        bb: usize,
        bb_posted: u32,
        straddle: Option<(usize, u32)>,
        first_seq: u16,
    )
        requires
            old(self).sound(),
            sb < old(self)@.seats.len(),
            bb < old(self)@.seats.len(),
            straddle matches Some((i, _)) ==> i < old(self)@.seats.len(),
        ensures
            final(self).sound(),
            final(self)@ == old(self)@.opening_reported(
                OpeningPosts {
                    sb: sb as int,
                    sb_posted,
                    bb: bb as int,
                    bb_posted,
                    straddle: match straddle {
                        Some((i, c)) => Some((i as int, c)),
                        None => None,
                    },
                    first_seq,
                },
            ),
    {
        let ghost before = self@;
        let second: u16 = first_seq.saturating_add(1);
        let third: u16 = second.saturating_add(1);
        self.report_post(sb, BlindKind::Small, sb_posted, first_seq);
        let ghost one = self@;
        proof {
            lemma_post_event_alike(before, one);
        }
        self.report_post(bb, BlindKind::Big, bb_posted, second);
        let mut pot: u64 = sb_posted as u64 + bb_posted as u64;
        if let Some((i, c)) = straddle {
            proof {
                lemma_post_event_alike(before, self@);
            }
            self.report_post(i, BlindKind::Straddle, c, third);
            pot = pot + c as u64;
        }
        let side_pots: Vec<SidePot> = Vec::new();
        assert(sidepot::pots_view(side_pots@) =~= Seq::empty());
        let e = EngineEvent::PotUpdated { pot, side_pots, has_all_in: self.anyone_all_in() };
        self.report(e);
        if self.mode == HandMode::Plaintext {
            proof {
                lemma_deal_events_alike(before, self@, before.seats.len() as int);
            }
            self.report_deal();
        }
    }
}

/// The event of a forced bet does not depend on what was reported before.
proof fn lemma_post_event_alike(a: HandModel, b: HandModel)
    requires
        b == (HandModel { events: b.events, ..a }),
    ensures
        forall|i: int, kind: BlindKind, posted: u32, seq: u16|
            #[trigger] a.post_event(i, kind, posted, seq) == b.post_event(i, kind, posted, seq),
{
}

/// The events of the deal do not depend on what was reported before.
proof fn lemma_deal_events_alike(a: HandModel, b: HandModel, k: int)
    requires
        a.seats == b.seats,
    ensures
        a.deal_events(k) == b.deal_events(k),
    decreases k,
{
    if k > 0 {
        lemma_deal_events_alike(a, b, k - 1);
    }
}

/// What the forced bets put in together can be counted.
pub proof fn lemma_posts_fit(m: HandModel)
    requires
        m.wf(),
        m.start_refusal() is None,
    ensures
        0 <= invariants::posts_total(m) <= u32::MAX,
{
    let e = m.entries();
    invariants::lemma_blind_places(m);
    assert(Seq::new(e.len(), |i: int| e[i].0) =~= model::seat_ids(m.seats));
    seqs::lemma_sum_same(e, m.seats, round::seat_chips(), model::start_chips());
    invariants::lemma_posts(m);
    round::lemma_seated(e);
    round::lemma_all_posted(round::seated(e), m.posts());
    round::lemma_pot_fits(round::all_posted(round::seated(e), m.posts()));
}

/// What recording the forced bets leaves in place, and what it adds to the records.
pub proof fn lemma_recorded(m: HandModel)
    requires
        m.wf(),
        m.start_refusal() is None,
    ensures
        ({
            let n = m.announced().blinds_recorded();
            &&& n == (HandModel {
                events: n.events,
                actions: n.actions,
                last_action: n.last_action,
                action_seq: n.action_seq,
                ..m
            })
            &&& n.actions.len() > 0
            &&& seqs::sum_of(n.actions, model::record_chips()) == seqs::sum_of(
                m.actions,
                model::record_chips(),
            )
                + invariants::posts_total(m)
        }),
{
    let a = m.announced();
    let (sb, bb) = m.blinds();
    let p = m.post_of(sb, m.small_blind);
    let q = m.post_of(bb, m.big_blind);
    let one = a.recorded_post(sb, BlindKind::Small, m.small_blind, 0);
    let two = one.recorded_post(bb, BlindKind::Big, m.big_blind, p as int);
    seqs::lemma_sum_push(a.actions, one.actions.last(), model::record_chips());
    seqs::lemma_sum_push(one.actions, two.actions.last(), model::record_chips());
    if let Some(i) = m.straddler() {
        let three = two.recorded_post(
            i,
            BlindKind::Straddle,
            m.forced_straddle->Some_0,
            p + q,
        );
        seqs::lemma_sum_push(two.actions, three.actions.last(), model::record_chips());
    }
}

/// An attempt to begin that runs out of cards leaves the hand in order.
pub proof fn lemma_failed_start(m: HandModel)
    requires
        m.wf(),
        m.start_refusal() is None,
        !m.can_deal(),
    ensures
        m.announced().blinds_recorded().holes_dealt().wf(),
{
    lemma_recorded(m);
}

/// A hand with its forced bets on record and its cards dealt is ready for its first round.
pub proof fn lemma_dealt(m: HandModel)
    requires
        m.wf(),
        m.start_refusal() is None,
        m.can_deal(),
    ensures
        ({
            let d = m.announced().blinds_recorded().holes_dealt();
            &&& d.seats.len() == m.seats.len()
            &&& seqs::distinct(model::seat_ids(d.seats))
            &&& d.deck.wf()
            &&& d.starting_total() == m.starting_total()
            &&& d.completed_pot == m.completed_pot
            &&& d.street_pots == m.street_pots
            &&& d.mode == m.mode
            &&& forall|k: int|
                0 <= k < d.seats.len() ==> (#[trigger] d.seats[k]).stack
                    == d.seats[k].starting_stack && !d.seats[k].folded && d.seats[k].stack
                    == m.seats[k].stack
            &&& invariants::posts_total(d) == invariants::posts_total(m)
            &&& seqs::sum_of(d.actions, model::record_chips()) == invariants::posts_total(m)
        }),
{
    lemma_recorded(m);
    let n = m.announced().blinds_recorded();
    let d = n.holes_dealt();
    assert(model::seat_ids(d.seats) =~= model::seat_ids(m.seats));
    seqs::lemma_sum_same(d.seats, m.seats, model::start_chips(), model::start_chips());
    invariants::lemma_blind_places(m);
    assert forall|k: int| 0 <= k < d.seats.len() implies (#[trigger] d.seats[k]).stack
        == d.seats[k].starting_stack && !d.seats[k].folded && d.seats[k].stack
        == m.seats[k].stack by {
        assert(m.seats[k].stack == m.seats[k].starting_stack);
    }
    let (sb, bb) = m.blinds();
    assert(d.seats[sb].stack == m.seats[sb].stack);
    assert(d.seats[bb].stack == m.seats[bb].stack);
    if let Some(i) = m.straddler() {
        assert(d.seats[i].stack == m.seats[i].stack);
    }
    assert(m.actions.len() == 0);
}

/// Reporting the opening changes nothing but the events.
pub proof fn lemma_opening_reported(m: HandModel, posts: OpeningPosts)
    ensures
        m.opening_reported(posts) == (HandModel {
            events: m.opening_reported(posts).events,
            ..m
        }),
{
}

} // verus!
