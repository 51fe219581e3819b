//! Taking actions, and looking back at them.

use super::model::{HandModel, StreetStory};
use super::{
    ActionTransitionPreview, GameHand, GameSnapshot, HandSeat, Phase, StreetActionFact,
};
use crate::action::{ActionError, ActionRecord, PlayerAction};
use crate::event::EngineEvent;
use crate::hand::Street;
use crate::player::{Chips, PlayerId};
use crate::sidepot::SidePot;
use std::collections::HashMap;
use crate::game::invariants;
use crate::game::model;
use crate::round;
use crate::seqs;
use crate::sidepot;
use crate::event;
use vstd::prelude::*;

verus! {

impl Clone for GameHand {
    fn clone(&self) -> (r: Self)
        ensures
            r@ == self@,
    {
        let mut r = self.preview_clone();
        r.actions = self.actions.clone();
        r.last_action = self.last_action.clone();
        r.events = self.events.clone();
        assert(r.actions@ =~= self.actions@);
        assert(event::events_view(r.events@) =~= event::events_view(self.events@));
        assert(r@ =~= self@);
        r
    }
}

impl GameHand {
    /// Whether `player_id` may take `action` now. Nothing changes.
    pub fn validate_action(&self, player_id: PlayerId, action: &PlayerAction) -> (r: Result<
        (),
        ActionError,
    >)
        requires
            self.sound(),
        ensures
            r == match self@.applied(player_id, *action).1 {
                Ok(_) => Ok::<(), ActionError>(()),
                Err(e) => Err(e),
            },
    {
        match self.preview_action_transition(player_id, action) {
            Ok(_) => Ok(()),
            Err(e) => Err(e),
        }
    }

    /// A copy of the hand without its history.
    pub(crate) fn preview_clone(&self) -> (r: Self)
        ensures
            r@ == self@.without_history(),
    {
        let betting_round = match &self.betting_round {
            Some(x) => Some(x.clone()),
            None => None,
        };
        let r = GameHand {
            seats: self.seats.clone(),
            dealer_idx: self.dealer_idx,
            big_blind: self.big_blind,
            small_blind: self.small_blind,
            forced_straddle: self.forced_straddle,
            preflop_bring_in: self.preflop_bring_in,
            mode: self.mode,
            deck: self.deck.clone(),
            deck_seed: self.deck_seed,
            board: self.board,
            phase: self.phase,
            betting_round,
            completed_pot: self.completed_pot,
            cumulative_side_pots: self.cumulative_side_pots.clone(),
            actions: Vec::new(),
            action_seq: self.action_seq,
            last_action: HashMap::new(),
            events: Vec::new(),
            pending_board_street: self.pending_board_street,
            finished_street: self.finished_street,
        };
        assert(r.seats@ =~= self.seats@);
        assert(sidepot::pots_view(r.cumulative_side_pots@) =~= sidepot::pots_view(self.cumulative_side_pots@));
        assert(r@ =~= self@.without_history());
        r
    }

    /// What an action would do, without taking it. It fails as the action would.
    pub fn preview_action_transition(&self, player_id: PlayerId, action: &PlayerAction) -> (r:
        Result<ActionTransitionPreview, ActionError>)
        requires
            self.sound(),
        ensures
            r == self@.preview(player_id, *action),
    {
        let mut after = self.preview_clone();
        let ghost bare = after@;
        proof {
            assert(bare.without_history() =~= self@.without_history());
            invariants::lemma_applied_alike(self@, bare, player_id, *action);
            assert(bare.sound()) by {
                lemma_sound_alike(self@, bare);
            }
        }
        let (snapshot, closed) = match after.apply_action_tracked(player_id, *action) {
            Ok(x) => x,
            Err(e) => {
                return Err(e);
            },
        };
        let ghost done = self@.applied(player_id, *action).0;
        proof {
            lemma_applied_shape(self@, player_id, *action);
            lemma_read_alike(done, after@, player_id);
        }
        let round = match &self.betting_round {
            Some(x) => x,
            None => {
                return Err(ActionError::HandFinished);
            },
        };
        let states = round.player_states();
        let mut i: usize = 0;
        while i < states.len() && states[i].player_id != player_id
            invariant
                i <= states@.len(),
                states@ == round@.players,
                forall|j: int| 0 <= j < i ==> !round::is_player(player_id)(#[trigger] states@[j]),
            decreases states@.len() - i,
        {
            i = i + 1;
        }
        proof {
            seqs::lemma_first_index_is(states@, i as int, round::is_player(player_id));
        }
        let before = states[i];
        let k: usize = after.find_seat(player_id);
        let shown = snapshot.players[k];
        let betting_over: bool = match &after.betting_round {
            Some(x) => x.is_done(),
            None => true,
        };
        let p = ActionTransitionPreview {
            stack_before: before.stack,
            committed_before: before.contributed,
            current_bet_before: Chips(self.bet_now()),
            min_raise_to_before: self.raise_now(),
            stack_after: shown.stack,
            committed_after: shown.committed_this_street,
            current_bet_after: snapshot.current_bet,
            min_raise_to_after: snapshot.min_raise_to,
            all_in_after: shown.all_in,
            round_closed_after: closed,
            next_actor: snapshot.current_actor,
            next_actor_can_raise_after: snapshot.min_raise_to.is_some(),
            street_after: snapshot.street,
            betting_terminal_after: after.is_done() || betting_over,
            hand_done_after: after.is_done(),
        };
        assert(p == self@.transition(done, player_id, closed));
        Ok(p)
    }

    /// Takes an action. A refused action changes nothing.
    pub fn apply_action(&mut self, player_id: PlayerId, action: PlayerAction) -> (r: Result<
        GameSnapshot,
        ActionError,
    >)
        requires
            old(self).sound(),
        ensures
            final(self).sound(),
            old(self).wf() ==> final(self).wf(),
            final(self)@ == old(self)@.applied(player_id, action).0,
            match old(self)@.applied(player_id, action).1 {
                Ok(_) => r is Ok && r->Ok_0@ == final(self)@.snapshot(),
                Err(e) => r == Err::<GameSnapshot, ActionError>(e),
            },
    {
        match self.apply_action_tracked(player_id, action) {
            Ok((snapshot, _)) => Ok(snapshot),
            Err(e) => Err(e),
        }
    }

    /// Takes an action, and tells whether it ended the betting round.
    pub(crate) fn apply_action_tracked(&mut self, player_id: PlayerId, action: PlayerAction) -> (r:
        Result<(GameSnapshot, bool), ActionError>)
        requires
            old(self).sound(),
        ensures
            final(self).sound(),
            old(self).wf() ==> final(self).wf(),
            final(self)@ == old(self)@.applied(player_id, action).0,
            match old(self)@.applied(player_id, action).1 {
                Ok(closed) => r is Ok && r->Ok_0.0@ == final(self)@.snapshot() && r->Ok_0.1
                    == closed,
                Err(e) => r == Err::<(GameSnapshot, bool), ActionError>(e),
            },
    {
        let ghost before = self@;
        let action_seq: u16 = self.action_seq;
        let (moved, recorded) = match self.move_chips(player_id, action) {
            Ok(x) => x,
            Err(e) => {
                return Err(e);
            },
        };
        let ghost m = self@;
        proof {
            invariants::lemma_acted(before, player_id, action);
            invariants::lemma_street_closed(before.acted(player_id, action));
            seqs::lemma_first_index_same(
                m.seats,
                before.seats,
                model::is_seat_of(player_id),
                model::is_seat_of(player_id),
            );
        }
        self.report_action(player_id, recorded, moved, action_seq);
        assert(self@ =~= before.acted(player_id, action));
        let closed: bool = match &self.betting_round {
            Some(r) => r.is_done(),
            None => false,
        };
        if closed {
            return match self.close_street_and_advance() {
                Ok(snapshot) => Ok((snapshot, true)),
                Err(e) => Err(e),
            };
        }
        Ok((self.snapshot(), false))
    }

    /// Moves the chips of an action and puts it on record. Returns the chips
    /// and the action as recorded. A refused action changes nothing.
    fn move_chips(&mut self, player_id: PlayerId, action: PlayerAction) -> (r: Result<
        (Chips, PlayerAction),
        ActionError,
    >)
        requires
            old(self).sound(),
        ensures
            match old(self)@.refusal(player_id, action) {
                Some(e) => r == Err::<(Chips, PlayerAction), ActionError>(e) && final(self)@
                    == old(self)@,
                None => {
                    let x = old(self)@.round->Some_0;
                    &&& r is Ok
                    &&& r->Ok_0.0.0 == x.chips_for(x.index_of(player_id), action)
                    &&& r->Ok_0.1 == old(self)@.recorded_action(player_id, action)
                    &&& final(self)@ == old(self)@.moved_by(player_id, action)
                },
            },
    {
        let ghost before = self@;
        match self.phase {
            Phase::NotStarted => {
                return Err(ActionError::HandNotStarted);
            },
            Phase::Done => {
                return Err(ActionError::HandFinished);
            },
            Phase::Betting(_) => {},
        }
        let k: usize = self.find_seat(player_id);
        if k >= self.seats.len() {
            return Err(ActionError::NotInHand);
        }
        let street = self.current_street();
        proof {
            invariants::lemma_pot_bounds(before);
        }
        let pot_before: u32 = self.completed_pot.0 + self.round_chips();
        let mut round = match self.betting_round.take() {
            Some(x) => x,
            None => {
                assert(self@ =~= before);
                return Err(ActionError::HandFinished);
            },
        };
        let owed = round.to_call(player_id);
        let moved = match round.apply_action(player_id, &action) {
            Ok(c) => c,
            Err(e) => {
                self.betting_round = Some(round);
                assert(self@ =~= before);
                return Err(e);
            },
        };
        proof {
            invariants::lemma_acted(before, player_id, action);
        }
        let recorded = if matches!(action, PlayerAction::Call) && owed.0 == 0 {
            PlayerAction::Check
        } else {
            action
        };
        let s = self.seats[k];
        let stack_after = Chips(s.stack.0 - moved.0);
        let folded: bool = round.player_folded(player_id);
        let all_in: bool = round.player_all_in(player_id);
        self.betting_round = Some(round);
        self.seats[k] = HandSeat { stack: stack_after, folded, all_in, ..s };
        self.actions.push(
            ActionRecord {
                seq: self.action_seq,
                street,
                player_id,
                action: recorded,
                amount: moved,
                stack_before: s.stack,
                stack_after,
                pot_before: Chips(pot_before),
                pot_after: Chips(pot_before + moved.0),
            },
        );
        self.action_seq = self.action_seq.saturating_add(1);
        self.last_action.insert(player_id.0, recorded);
        let ghost done = before.moved_by(player_id, action);
        assert(self@.seats =~= done.seats);
        assert(self@.round == done.round);
        assert(self@.actions =~= done.actions);
        assert(self@ =~= done);
        Ok((moved, recorded))
    }

    /// Reports an action that was taken, and the pots where chips have moved.
    fn report_action(
        &mut self,
        player_id: PlayerId,
        recorded: PlayerAction,
        moved: Chips,
        action_seq: u16,
    )
        requires
            old(self).sound(),
            old(self)@.seat_index(player_id) < old(self)@.seats.len(),
        ensures
            final(self).sound(),
            final(self)@ == ({
                let m = old(self)@;
                let told = m.reporting(
                    m.action_event(
                        m.seat_index(player_id),
                        recorded,
                        moved.0 as int,
                        action_seq,
                    ),
                );
                if moved.0 > 0 {
                    told.reporting(m.pot_event())
                } else {
                    told
                }
            }),
    {
        let k: usize = self.find_seat(player_id);
        let min_raise_to: Option<u64> = match self.raise_now() {
            Some(c) => Some(c.0 as u64),
            None => None,
        };
        let e = EngineEvent::ActionApplied {
            seat: self.seats[k].seat,
            action: recorded,
            contributed: moved.0 as u64,
            current_bet: self.bet_now() as u64,
            min_raise_to,
            next_actor_seat: self.number_of(self.actor_now()),
            action_seq,
        };
        self.report(e);
        if moved.0 > 0 {
            proof {
                invariants::lemma_pot_bounds(self@);
            }
            let pot: u64 = (self.completed_pot.0 + self.round_chips()) as u64;
            let side_pots: Vec<SidePot> = self.merged_side_pots();
            let has_all_in: bool = self.anyone_all_in();
            let p = EngineEvent::PotUpdated { pot, side_pots, has_all_in };
            self.report(p);
        }
    }

    /// The actions that players have chosen on this street, in order.
    pub fn current_street_actions(&self) -> (r: Vec<(PlayerId, PlayerAction)>)
        ensures
            r@ == seqs::pick(
                self@.actions,
                model::chosen_on(self@.street()),
                model::who_and_what(),
            ),
            seqs::is_told(
                r@,
                self@.actions,
                |a: ActionRecord| a.street == self@.street() && !(a.action is Blind),
                |a: ActionRecord| (a.player_id, a.action),
            ),
    {
        let street = self.current_street();
        let mut r: Vec<(PlayerId, PlayerAction)> = Vec::new();
        let mut i: usize = 0;
        while i < self.actions.len()
            invariant
                i <= self.actions@.len(),
                r@ == seqs::pick(
                    self.actions@.take(i as int),
                    model::chosen_on(street),
                    model::who_and_what(),
                ),
            decreases self.actions@.len() - i,
        {
            proof {
                seqs::lemma_pick_take(
                    self.actions@,
                    i as int,
                    model::chosen_on(street),
                    model::who_and_what(),
                );
            }
            let a = self.actions[i];
            if a.street == street && !matches!(a.action, PlayerAction::Blind { .. }) {
                r.push((a.player_id, a.action));
            }
            i = i + 1;
        }
        assert(self.actions@.take(i as int) =~= self.actions@);
        proof {
            let places = seqs::lemma_pick_told(
                self.actions@,
                model::chosen_on(street),
                model::who_and_what(),
            );
            assert(seqs::told_at(
                r@,
                self@.actions,
                |a: ActionRecord| a.street == self@.street() && !(a.action is Blind),
                |a: ActionRecord| (a.player_id, a.action),
                places,
            ));
        }
        r
    }

    /// What each action on this street meant.
    pub fn current_street_action_facts(&self) -> (r: Vec<StreetActionFact>)
        requires
            self@.can_tell(self@.street()),
        ensures
            r@ == self@.facts_of(self@.street()),
    {
        self.street_action_facts(self.current_street())
    }

    fn street_chips_of(&self, upto: usize, street: Street, pid: PlayerId) -> (r: u32)
        requires
            upto <= self@.actions.len(),
            seqs::sum_of(self@.actions, model::amount_by(street, pid)) <= u32::MAX,
        ensures
            r == seqs::sum_of(self@.actions.take(upto as int), model::amount_by(street, pid)),
    {
        let mut total: u32 = 0;
        let mut i: usize = 0;
        while i < upto
            invariant
                i <= upto <= self.actions@.len(),
                seqs::sum_of(self.actions@, model::amount_by(street, pid)) <= u32::MAX,
                total == seqs::sum_of(self.actions@.take(i as int), model::amount_by(street, pid)),
            decreases upto - i,
        {
            let a = self.actions[i];
            proof {
                seqs::lemma_sum_take(self.actions@, i as int, model::amount_by(street, pid));
                seqs::lemma_sum_prefix(self.actions@, i + 1, model::amount_by(street, pid));
            }
            if a.street == street && a.player_id == pid {
                total = total + a.amount.0;
            }
            i = i + 1;
        }
        total
    }

    /// What each action on `street` meant: whether it raised the bet, and
    /// whether by a full raise.
    pub fn street_action_facts(&self, street: Street) -> (r: Vec<StreetActionFact>)
        requires
            self@.can_tell(street),
        ensures
            r@ == self@.facts_of(street),
    {
        let bring_in: u32 = if self.preflop_bring_in.0 > self.big_blind.0 {
            self.preflop_bring_in.0
        } else {
            self.big_blind.0
        };
        proof {
            if self@.wf() && !(self@.phase is NotStarted) {
                law_begun_hand_can_be_told(self@);
            }
        }
        let preflop: bool = street == Street::Preflop;
        let mut bet: u32 = if preflop {
            bring_in
        } else {
            0
        };
        let mut raise: u32 = if preflop {
            bring_in
        } else {
            self.big_blind.0
        };
        let ghost open = self@.opening_of(street);
        let mut facts: Vec<StreetActionFact> = Vec::new();
        let mut i: usize = 0;
        while i < self.actions.len()
            invariant
                i <= self.actions@.len(),
                model::street_sums_fit(self@.actions, street),
                (StreetStory { bet: bet as int, raise: raise as int, facts: facts@ })
                    == model::street_story(self.actions@.take(i as int), street, open.0, open.1),
            decreases self.actions@.len() - i,
        {
            let a = self.actions[i];
            proof {
                assert(self.actions@.take(i + 1).drop_last() =~= self.actions@.take(i as int));
                assert(self.actions@.take(i + 1).last() == a);
            }
            if a.street == street && !matches!(a.action, PlayerAction::Blind { .. }) {
                let total: u32 = self.street_chips_of(i + 1, street, a.player_id);
                let aggressive: bool = matches!(
                    a.action,
                    PlayerAction::Raise { .. } | PlayerAction::AllIn
                );
                let increased_bet: bool = aggressive && total > bet;
                let full_raise: bool = increased_bet && total - bet >= raise;
                if full_raise {
                    raise = total - bet;
                }
                if increased_bet {
                    bet = total;
                }
                facts.push(
                    StreetActionFact {
                        player_id: a.player_id,
                        action: a.action,
                        increased_bet,
                        full_raise,
                    },
                );
            }
            i = i + 1;
            assert((StreetStory { bet: bet as int, raise: raise as int, facts: facts@ })
                =~= model::street_story(self.actions@.take(i as int), street, open.0, open.1));
        }
        assert(self.actions@.take(i as int) =~= self.actions@);
        facts
    }

    /// The last player to raise the bet in the hand so far.
    pub fn last_aggressor_player_id(&self) -> (r: Option<PlayerId>)
        requires
            forall|s: Street|
                s.order() <= self@.street().order() ==> #[trigger] self@.can_tell(s),
        ensures
            r == self@.aggressor_up_to(self@.street().order()),
    {
        let mut left: usize = match self.current_street() {
            Street::Preflop => 1,
            Street::Flop => 2,
            Street::Turn => 3,
            Street::River => 4,
        };
        while left > 0
            invariant
                left <= self@.street().order() + 1,
                forall|s: Street|
                    s.order() <= self@.street().order() ==> #[trigger] self@.can_tell(s),
                self@.aggressor_up_to(left - 1) == self@.aggressor_up_to(self@.street().order()),
            decreases left,
        {
            let street = match left {
                1 => Street::Preflop,
                2 => Street::Flop,
                3 => Street::Turn,
                _ => Street::River,
            };
            assert(street == model::street_at(left - 1));
            let facts = self.street_action_facts(street);
            let mut k: usize = facts.len();
            assert(facts@.take(k as int) =~= facts@);
            while k > 0
                invariant
                    k <= facts@.len(),
                    facts@ == self@.facts_of(model::street_at(left - 1)),
                    1 <= left,
                    model::last_raiser(facts@.take(k as int)) == model::last_raiser(facts@),
                    self@.aggressor_up_to(left - 1) == self@.aggressor_up_to(
                        self@.street().order(),
                    ),
                decreases k,
            {
                assert(facts@.take(k as int).drop_last() =~= facts@.take(k - 1));
                if facts[k - 1].increased_bet {
                    return Some(facts[k - 1].player_id);
                }
                k = k - 1;
            }
            left = left - 1;
        }
        None
    }

    /// The actions of this street as a strategy sees them.
    pub fn current_street_strategy_actions(&self) -> (r: Vec<(PlayerId, PlayerAction)>)
        requires
            self@.can_tell(self@.street()),
        ensures
            r@ == strategy_of(self@.facts_of(self@.street())),
    {
        let facts = self.current_street_action_facts();
        let mut r: Vec<(PlayerId, PlayerAction)> = Vec::new();
        let mut i: usize = 0;
        while i < facts.len()
            invariant
                i <= facts@.len(),
                r@ == strategy_of(facts@).take(i as int),
            decreases facts@.len() - i,
        {
            r.push((facts[i].player_id, facts[i].strategy_action()));
            assert(r@ =~= strategy_of(facts@).take(i + 1));
            i = i + 1;
        }
        assert(r@ =~= strategy_of(facts@));
        r
    }

    /// The number that the next action will have.
    pub fn next_action_seq(&self) -> (r: u16)
        ensures
            r == self@.action_seq,
    {
        self.action_seq
    }
}

/// The actions as a strategy sees them.
pub open spec fn strategy_of(facts: Seq<StreetActionFact>) -> Seq<(PlayerId, PlayerAction)> {
    Seq::new(facts.len(), |i: int| (facts[i].player_id, facts[i].seen_action()))
}

/// Where all the chips on record can be counted, so can those of one player on one street.
pub proof fn lemma_street_sums(actions: Seq<ActionRecord>, street: Street)
    requires
        seqs::sum_of(actions, model::record_chips()) <= u32::MAX,
    ensures
        model::street_sums_fit(actions, street),
{
    assert forall|i: int| 0 <= i < actions.len() implies seqs::sum_of(
        actions,
        model::amount_by(street, (#[trigger] actions[i]).player_id),
    ) <= u32::MAX by {
        seqs::lemma_sum_at_most(
            actions,
            model::amount_by(street, actions[i].player_id),
            model::record_chips(),
        );
    }
}

/// The records of a hand that has begun can be told street by street.
pub proof fn law_begun_hand_can_be_told(m: HandModel)
    requires
        m.wf(),
        !(m.phase is NotStarted),
    ensures
        forall|s: Street| #[trigger] model::street_sums_fit(m.actions, s),
{
    invariants::lemma_committed(m);
    assert forall|s: Street| #[trigger] model::street_sums_fit(m.actions, s) by {
        lemma_street_sums(m.actions, s);
    }
}

/// A hand that is sound is sound without its history.
pub proof fn lemma_sound_alike(a: HandModel, b: HandModel)
    requires
        a.sound(),
        b == a.without_history(),
    ensures
        b.sound(),
{
}

/// What a taken action leaves in place.
pub proof fn lemma_applied_shape(m: HandModel, pid: PlayerId, action: PlayerAction)
    requires
        m.sound(),
        m.applied(pid, action).1 is Ok,
    ensures
        m.round is Some,
        m.round->Some_0.index_of(pid) < m.round->Some_0.players.len(),
        m.applied(pid, action).0.seats.len() == m.seats.len(),
        m.applied(pid, action).0.seat_index(pid) < m.seats.len(),
{
    invariants::lemma_acted(m, pid, action);
    let n = m.acted(pid, action);
    invariants::lemma_street_closed(n);
    seqs::lemma_first_index_same(n.seats, m.seats, model::is_seat_of(pid), model::is_seat_of(pid));
}

/// Hands that are the same but for their history show the same betting.
pub proof fn lemma_read_alike(a: HandModel, b: HandModel, pid: PlayerId)
    requires
        invariants::alike(a, b),
    ensures
        a.seats == b.seats,
        a.round == b.round,
        a.phase == b.phase,
        a.street() == b.street(),
        a.current_bet() == b.current_bet(),
        a.open_raise() == b.open_raise(),
        a.current_actor() == b.current_actor(),
        a.committed_on_street(pid) == b.committed_on_street(pid),
{
    let x = a.without_history();
    let y = b.without_history();
    assert(x.seats == a.seats && y.seats == b.seats);
    assert(x.round == a.round && y.round == b.round);
    assert(x.phase == a.phase && y.phase == b.phase);
    assert(x.finished_street == a.finished_street && y.finished_street == b.finished_street);
}

} // verus!
