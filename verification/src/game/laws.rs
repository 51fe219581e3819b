//! What holds of a hand as a whole.

use crate::action::{ActionError, ActionRecord, BlindKind, PlayerAction};
use crate::card::Card;
use crate::deck::DeckModel;
use crate::deck;
use crate::eval;
use crate::event::EventModel;
use crate::game::actions;
use crate::game::invariants;
use crate::game::model;
use crate::game::outcome;
use crate::game::pots;
use crate::game::start;
use crate::game;
use crate::hand::{BoardModel, HoleCards, Street};
use crate::player::{Chips, PlayerId};
use crate::rng::{DeckSeed, PokerRng};
use crate::rng;
use crate::round;
use crate::seqs;
use crate::sidepot;
use super::model::HandModel;
use super::{BlindFinishError, BlindInjectError, HandMode, ResultModel};
use vstd::prelude::*;

verus! {

// ---- chips ----
/// All the chips at the table: in front of the players and in the middle.
pub open spec fn table_chips(m: HandModel) -> int {
    seqs::sum_of(m.seats, model::stack_chips()) + m.pot()
}

/// The chips at the table are the chips that were brought to it.
pub proof fn law_no_chip_leaves_the_table(m: HandModel)
    requires
        m.wf(),
    ensures
        table_chips(m) == m.starting_total(),
{
    invariants::lemma_committed(m);
}

/// Beginning a hand makes no chips and loses none.
pub proof fn law_start_conserves_chips(m: HandModel)
    requires
        m.wf(),
    ensures
        table_chips(m.started().0) == table_chips(m),
        m.started().0.starting_total() == m.starting_total(),
{
    invariants::lemma_started(m);
    law_no_chip_leaves_the_table(m);
    law_no_chip_leaves_the_table(m.started().0);
}

/// Taking an action, with all the streets that it may close, makes no chips and loses none.
pub proof fn law_action_conserves_chips(m: HandModel, pid: PlayerId, action: PlayerAction)
    requires
        m.wf(),
    ensures
        table_chips(m.applied(pid, action).0) == table_chips(m),
        m.applied(pid, action).0.starting_total() == m.starting_total(),
{
    invariants::lemma_applied(m, pid, action);
    law_no_chip_leaves_the_table(m);
    law_no_chip_leaves_the_table(m.applied(pid, action).0);
}

/// Taking the cards of a street, and taking a player's cards at the showdown,
/// makes no chips and loses none.
pub proof fn law_cards_from_elsewhere_conserve_chips(
    m: HandModel,
    cards: Seq<Card>,
    pid: PlayerId,
    h: HoleCards,
)
    requires
        m.wf(),
    ensures
        m.board_refusal(cards) is None ==> table_chips(m.board_taken(cards)) == table_chips(m),
        m.reveal_refusal(pid, h) is None ==> table_chips(m.revealed(pid, h)) == table_chips(m),
{
    law_no_chip_leaves_the_table(m);
    if m.board_refusal(cards) is None {
        let shown = m.board_shown(cards);
        assert(shown.wf());
        if let Some(r) = shown.round {
            if r.done() {
                invariants::lemma_street_closed(shown);
                invariants::lemma_street_closed_sound(shown);
            }
        }
        law_no_chip_leaves_the_table(m.board_taken(cards));
    }
    if m.reveal_refusal(pid, h) is None {
        invariants::lemma_revealed(m, pid, h);
        let n = m.revealed(pid, h);
        invariants::lemma_seat_index(m, pid);
        seqs::lemma_sum_same(n.seats, m.seats, model::stack_chips(), model::stack_chips());
    }
}

/// An outcome that makes no chips and loses none: every pot is paid out in
/// full, to players of the hand; the pots are together what was put in; and the
/// players have after the hand together what they brought to it.
pub open spec fn conserves(m: HandModel, r: ResultModel) -> bool {
    &&& outcome::pays_out(r.pots, m.committed(), model::seat_ids(m.seats))
    &&& seqs::sum_of(m.seats, outcome::final_of(r.chips_awarded)) == m.committed()
    &&& seqs::sum_of(m.seats, outcome::final_of(r.final_stacks)) == m.starting_total()
}

/// Settling a hand that is over makes no chips and loses none, however it is settled.
pub proof fn law_settlement_conserves(m: HandModel)
    requires
        m.wf(),
        m.phase is Done,
    ensures
        m.mode == HandMode::Plaintext ==> conserves(m, outcome::dealt_result(m)),
        outcome::blind_result(m) matches Ok(r) ==> conserves(m, r),
        outcome::forfeit_result(m) matches Ok(r) ==> conserves(m, r),
{
    seqs::lemma_count_bounds(m.seats, model::in_hand());
    invariants::lemma_pot_bounds(m);
    if m.mode == HandMode::Plaintext {
        outcome::lemma_hands_of_seats(m, outcome::can_show());
        outcome::lemma_showdown_pays(m, outcome::dealt_hands(m), Set::empty());
        let results = seqs::flatten(
            pots::showdown_outcomes(
                m.hand_pots(),
                outcome::dealt_hands(m),
                m.board,
                outcome::button_order(m),
                Set::empty(),
            ),
        );
        outcome::law_settlement_conserves_chips(
            m,
            results,
            outcome::showdown_of(outcome::dealt_hands(m), m.board),
            outcome::show_order(m),
        );
    } else if outcome::blind_refusal(m) is None {
        if m.active_count() <= 1 {
            outcome::lemma_lone_pays(m);
            let results = seqs::flatten(
                pots::lone_outcomes(
                    m.every_pot(),
                    outcome::lone_player(m),
                    outcome::button_order(m),
                ),
            );
            outcome::law_settlement_conserves_chips(
                m,
                results,
                Seq::empty(),
                outcome::show_order(m),
            );
        } else {
            outcome::lemma_hands_of_seats(m, outcome::has_shown());
            let hands = outcome::shown_hands(m);
            lemma_shown_conserves(m, hands, Set::empty());
            lemma_shown_conserves(m, hands, outcome::silent_players(m.seats));
        }
    }
}

proof fn lemma_shown_conserves(
    m: HandModel,
    hands: Seq<(PlayerId, HoleCards)>,
    forfeiters: Set<u64>,
)
    requires
        m.sound(),
        m.active_count() > 0,
        pots::hands_of_players(hands, model::seat_ids(m.seats)),
    ensures
        conserves(m, outcome::showdown_result(m, hands, forfeiters)),
{
    outcome::lemma_showdown_pays(m, hands, forfeiters);
    let results = seqs::flatten(
        pots::showdown_outcomes(
            m.hand_pots(),
            hands,
            m.board,
            outcome::button_order(m),
            forfeiters,
        ),
    );
    outcome::law_settlement_conserves_chips(
        m,
        results,
        outcome::showdown_of(hands, m.board),
        outcome::show_order(m),
    );
}

/// Breaking a hand off makes no chips and loses none.
pub proof fn law_breaking_off_conserves(m: HandModel, out: Seq<PlayerId>)
    requires
        m.wf(),
        m.mode == HandMode::Blind,
        outcome::broken_off(m, out).active_count() > 0,
    ensures
        conserves(
            outcome::broken_off(m, out),
            outcome::broken_off_result(outcome::broken_off(m, out), m.hand_pots()),
        ),
        outcome::broken_off(m, out).starting_total() == m.starting_total(),
        outcome::broken_off(m, out).committed() == m.committed(),
{
    let n = outcome::broken_off(m, out);
    outcome::lemma_broken_off(m, out);
    outcome::lemma_broken_off_pays(m, out);
    let results = seqs::flatten(
        pots::survivor_outcomes(m.hand_pots(), outcome::survivors_of(n), outcome::button_order(n)),
    );
    outcome::law_settlement_conserves_chips(n, results, Seq::empty(), Seq::empty());
}

/// A hand dealt elsewhere that is over and that nobody is left in is settled
/// all the same, with and without forfeits: everybody gets back what they put
/// in, and nobody shows.
pub proof fn law_abandoned_hand_is_refunded(m: HandModel)
    requires
        m.wf(),
        m.mode == HandMode::Blind,
        m.phase is Done,
        m.active_count() == 0,
    ensures
        outcome::blind_result(m) is Ok,
        outcome::forfeit_result(m) == outcome::blind_result(m),
        outcome::all_refunded(m, outcome::blind_result(m)->Ok_0),
{
    outcome::lemma_all_refunded(m);
}

/// Where breaking a hand off leaves nobody, it can still be settled, and
/// everybody then has what they brought to the hand.
pub proof fn law_hand_without_survivor_is_refunded(m: HandModel, out: Seq<PlayerId>)
    requires
        m.wf(),
        m.mode == HandMode::Blind,
        outcome::broken_off(m, out).active_count() == 0,
    ensures
        ({
            let r = outcome::blind_result(outcome::broken_off(m, out));
            &&& r is Ok
            &&& outcome::forfeit_result(outcome::broken_off(m, out)) == r
            &&& outcome::all_refunded(m, r->Ok_0)
        }),
{
    let n = outcome::broken_off(m, out);
    outcome::lemma_broken_off(m, out);
    law_abandoned_hand_is_refunded(n);
    let r = outcome::blind_result(n)->Ok_0;
    assert forall|k: int| 0 <= k < m.seats.len() implies r.final_stacks.contains_key(
        (#[trigger] m.seats[k]).player_id.0,
    ) && r.final_stacks[m.seats[k].player_id.0] == m.seats[k].starting_stack.0 by {
        assert(n.seats[k].player_id == m.seats[k].player_id);
        assert(n.seats[k].starting_stack == m.seats[k].starting_stack);
    }
}

// ---- turns ----
/// The turn is always that of a player of the hand who has neither folded nor
/// gone all in, and has chips left.
pub proof fn law_turn_is_of_a_live_player(m: HandModel)
    requires
        m.sound(),
        m.current_actor() is Some,
    ensures
        m.phase is Betting,
        ({
            let k = m.seat_index(m.current_actor()->Some_0);
            &&& 0 <= k < m.seats.len()
            &&& !m.seats[k].folded
            &&& !m.seats[k].all_in
            &&& m.seats[k].stack.0 > 0
        }),
{
    let r = m.round->Some_0;
    invariants::lemma_seat_index(m, r.players[r.actor].player_id);
}

/// What the table shows: the pot is what all players have put in, and so are
/// the side pots together, as long as somebody is left; the players are listed
/// as they sit, each as the seat has it, and those who have not folded are
/// shown as all in exactly where they have no chips left; the turn is that of a
/// listed player who has neither folded nor gone all in; and the dealer's seat
/// is that of the button.
pub proof fn law_snapshot_shows_the_table(m: HandModel)
    requires
        m.wf(),
    ensures
        m.snapshot().pot.0 == m.committed(),
        m.active_count() > 0 ==> sidepot::pots_total(m.snapshot().side_pots)
            == m.snapshot().pot.0,
        m.snapshot().players.len() == m.seats.len(),
        forall|k: int|
            0 <= k < m.seats.len() ==> {
                let p = #[trigger] m.snapshot().players[k];
                &&& p.player_id == m.seats[k].player_id
                &&& p.seat == m.seats[k].seat
                &&& p.stack == m.seats[k].stack
                &&& p.folded == m.seats[k].folded
                &&& p.all_in == m.seats[k].all_in
                &&& p.hole_cards == m.seats[k].hole.known()
                &&& m.begun() && !p.folded ==> p.all_in == (p.stack.0 == 0)
            },
        m.snapshot().current_actor matches Some(pid) ==> exists|k: int|
            0 <= k < m.seats.len() && (#[trigger] m.snapshot().players[k]).player_id == pid
                && !m.snapshot().players[k].folded && !m.snapshot().players[k].all_in,
        m.seats.len() > 0 ==> m.snapshot().dealer_seat == m.seats[m.dealer_idx as int
            % m.seats.len() as int].seat,
{
    invariants::lemma_pot_bounds(m);
    outcome::lemma_hand_pots(m);
    if let Some(pid) = m.current_actor() {
        law_turn_is_of_a_live_player(m);
        invariants::lemma_seat_index(m, pid);
        let k = m.seat_index(pid);
        assert(m.snapshot().players[k].player_id == pid);
    }
    assert forall|k: int| 0 <= k < m.seats.len() implies {
        let p = #[trigger] m.snapshot().players[k];
        &&& m.begun() && !p.folded ==> p.all_in == (p.stack.0 == 0)
    } by {
        assert(m.snapshot().players[k].all_in == m.seats[k].all_in);
    }
}

/// Nobody acts in a hand that is over.
pub proof fn law_no_turn_after_the_end(m: HandModel, pid: PlayerId, action: PlayerAction)
    requires
        m.sound(),
        m.phase is Done,
    ensures
        m.snapshot().current_actor is None,
        m.snapshot().min_raise_to is None,
        m.applied(pid, action) == (m, Err::<bool, ActionError>(ActionError::HandFinished)),
{
}

/// An action that is refused leaves the hand as it was.
pub proof fn law_refused_action_changes_nothing(m: HandModel, pid: PlayerId, action: PlayerAction)
    requires
        m.refusal(pid, action) is Some,
    ensures
        m.applied(pid, action).0 == m,
        m.applied(pid, action).1 == Err::<bool, ActionError>(m.refusal(pid, action)->Some_0),
{
}

/// The player whose turn it is can always fold or call.
pub proof fn law_fold_and_call_are_always_open(m: HandModel)
    requires
        m.sound(),
        m.current_actor() is Some,
    ensures
        m.refusal(m.current_actor()->Some_0, PlayerAction::Fold) is None,
        m.refusal(m.current_actor()->Some_0, PlayerAction::Call) is None,
{
    let r = m.round->Some_0;
    let pid = r.players[r.actor].player_id;
    law_turn_is_of_a_live_player(m);
    seqs::lemma_first_index(r.players, round::is_player(pid));
    assert(round::is_player(pid)(r.players[r.actor]));
    let i = r.index_of(pid);
    if i != r.actor {
        let ids = round::player_ids(r.players);
        assert(ids[i] == ids[r.actor]);
    }
}

// ---- replay and preview ----
/// The hand after the actions `moves`, refused ones included.
pub open spec fn played(m: HandModel, moves: Seq<(PlayerId, PlayerAction)>) -> HandModel
    decreases moves.len(),
{
    if moves.len() == 0 {
        m
    } else {
        played(m, moves.drop_last()).applied(moves.last().0, moves.last().1).0
    }
}

/// The moves that a list of records tells.
pub open spec fn told_moves(records: Seq<ActionRecord>) -> Seq<(PlayerId, PlayerAction)> {
    Seq::new(records.len(), |i: int| (records[i].player_id, records[i].action))
}

/// An action and what is put on record of it do the same.
pub proof fn law_recorded_action_does_the_same(m: HandModel, pid: PlayerId, action: PlayerAction)
    requires
        m.sound(),
        m.refusal(pid, action) is None,
    ensures
        m.applied(pid, m.recorded_action(pid, action)) == m.applied(pid, action),
{
    let r = m.round->Some_0;
    let told = m.recorded_action(pid, action);
    invariants::lemma_acted(m, pid, action);
    round::lemma_chips_for(r, pid, action);
    assert(m.refusal(pid, told) is None);
    assert(r.chips_for(r.index_of(pid), told) == r.chips_for(r.index_of(pid), action));
    assert(m.moved_by(pid, told) == m.moved_by(pid, action));
    assert(m.acted(pid, told) == m.acted(pid, action));
}

/// A hand can be played again from its records: whatever was tried, refused
/// actions included, the actions on record lead from the same beginning to the
/// same hand.
pub proof fn law_records_replay_the_hand(m: HandModel, moves: Seq<(PlayerId, PlayerAction)>)
    requires
        m.sound(),
    ensures
        ({
            let n = played(m, moves);
            let k = m.actions.len() as int;
            &&& n.sound()
            &&& k <= n.actions.len()
            &&& n.actions.take(k) == m.actions
            &&& played(m, told_moves(n.actions.skip(k))) == n
        }),
    decreases moves.len(),
{
    let k = m.actions.len() as int;
    if moves.len() == 0 {
        assert(m.actions.take(k) =~= m.actions);
        assert(told_moves(m.actions.skip(k)).len() == 0);
    } else {
        let p = played(m, moves.drop_last());
        let (pid, action) = moves.last();
        law_records_replay_the_hand(m, moves.drop_last());
        invariants::lemma_applied(p, pid, action);
        if p.refusal(pid, action) is None {
            law_recorded_action_does_the_same(p, pid, action);
            lemma_one_more_record(p, pid, action);
            let told = p.recorded_action(pid, action);
            lemma_replay_step(m, p, p.applied(pid, action).0, pid, told);
        }
    }
}

/// A taken action adds one record, of the player and of what is recorded of the action.
proof fn lemma_one_more_record(m: HandModel, pid: PlayerId, action: PlayerAction)
    requires
        m.sound(),
        m.refusal(pid, action) is None,
    ensures
        ({
            let n = m.applied(pid, action).0;
            &&& n.actions.len() == m.actions.len() + 1
            &&& n.actions.drop_last() == m.actions
            &&& n.actions.last().player_id == pid
            &&& n.actions.last().action == m.recorded_action(pid, action)
        }),
{
    invariants::lemma_acted(m, pid, action);
    invariants::lemma_street_closed(m.acted(pid, action));
    assert(m.moved_by(pid, action).actions.drop_last() =~= m.actions);
}

/// Where the records up to `p` lead from `m` to `p`, and one more record is
/// that of an action that leads on to `n`, all the records lead to `n`.
proof fn lemma_replay_step(
    m: HandModel,
    p: HandModel,
    n: HandModel,
    pid: PlayerId,
    told: PlayerAction,
)
    requires
        m.actions.len() <= p.actions.len(),
        p.actions.take(m.actions.len() as int) == m.actions,
        played(m, told_moves(p.actions.skip(m.actions.len() as int))) == p,
        n == p.applied(pid, told).0,
        n.actions.len() == p.actions.len() + 1,
        n.actions.drop_last() == p.actions,
        n.actions.last().player_id == pid,
        n.actions.last().action == told,
    ensures
        n.actions.take(m.actions.len() as int) == m.actions,
        played(m, told_moves(n.actions.skip(m.actions.len() as int))) == n,
{
    let k = m.actions.len() as int;
    let all = told_moves(n.actions.skip(k));
    assert(n.actions.take(k) =~= n.actions.drop_last().take(k));
    assert(all.drop_last() =~= told_moves(p.actions.skip(k))) by {
        assert forall|i: int| 0 <= i < p.actions.len() - k implies all[i] == told_moves(
            p.actions.skip(k),
        )[i] by {
            assert(n.actions.skip(k)[i] == n.actions.drop_last()[k + i]);
        }
    }
    assert(all.last() == (pid, told));
}

/// A hand that was dealt with a recorded seed can be played again from the
/// seed and the records, to the same outcome.
pub proof fn law_seed_and_records_replay_the_hand(
    players: Seq<(PlayerId, Chips, u8)>,
    dealer_idx: usize,
    big_blind: Chips,
    small_blind: Chips,
    rng: PokerRng,
    again: PokerRng,
    moves: Seq<(PlayerId, PlayerAction)>,
)
    requires
        start::can_sit(players),
        rng.stream() == rng::key_stream(rng.recorded()@),
        again.stream() == rng::key_stream(rng.recorded()@),
        again.recorded() == rng.recorded(),
    ensures
        ({
            let one = with_shuffled_deck(players, dealer_idx, big_blind, small_blind, rng);
            let two = with_shuffled_deck(players, dealer_idx, big_blind, small_blind, again);
            let n = played(one.started().0, moves);
            let told = told_moves(n.actions.skip(one.started().0.actions.len() as int));
            &&& played(two.started().0, told) == n
            &&& outcome::dealt_result(played(two.started().0, told)) == outcome::dealt_result(n)
        }),
{
    let one = with_shuffled_deck(players, dealer_idx, big_blind, small_blind, rng);
    start::lemma_fresh_hand(
        players,
        dealer_idx,
        big_blind,
        small_blind,
        HandMode::Plaintext,
        one.deck,
        rng.recorded(),
    );
    invariants::lemma_started(one);
    law_records_replay_the_hand(one.started().0, moves);
}

/// The fresh hand that [`super::GameHand::new_with_rng`] makes.
pub open spec fn with_shuffled_deck(
    players: Seq<(PlayerId, Chips, u8)>,
    dealer_idx: usize,
    big_blind: Chips,
    small_blind: Chips,
    rng: PokerRng,
) -> HandModel {
    start::fresh_hand(
        players,
        dealer_idx,
        big_blind,
        small_blind,
        HandMode::Plaintext,
        DeckModel { cards: deck::shuffled(deck::fresh_cards(), 51, rng.stream()).0, next: 0 },
        rng.recorded(),
    )
}

/// However many actions are tried, no chips are made and none are lost.
pub proof fn law_whole_hand_conserves_chips(m: HandModel, moves: Seq<(PlayerId, PlayerAction)>)
    requires
        m.wf(),
    ensures
        played(m, moves).wf(),
        table_chips(played(m, moves)) == table_chips(m),
        played(m, moves).starting_total() == m.starting_total(),
    decreases moves.len(),
{
    if moves.len() > 0 {
        law_whole_hand_conserves_chips(m, moves.drop_last());
        let p = played(m, moves.drop_last());
        invariants::lemma_applied(p, moves.last().0, moves.last().1);
        law_action_conserves_chips(p, moves.last().0, moves.last().1);
    }
}

/// What happens does not depend on the history: the same hand with its
/// actions and events forgotten takes the same action in the same way.
pub proof fn law_history_does_not_matter(m: HandModel, pid: PlayerId, action: PlayerAction)
    ensures
        m.applied(pid, action).1 == m.without_history().applied(pid, action).1,
        m.applied(pid, action).0.without_history() == m.without_history().applied(
            pid,
            action,
        ).0.without_history(),
        m.preview(pid, action) == m.without_history().preview(pid, action),
{
    let n = m.without_history();
    assert(n.without_history() =~= m.without_history());
    invariants::lemma_applied_alike(m, n, pid, action);
    if m.applied(pid, action).1 is Ok {
        actions::lemma_read_alike(m.applied(pid, action).0, n.applied(pid, action).0, pid);
    }
}

/// A preview tells what the action then does, or why it is refused.
pub proof fn law_preview_tells_the_truth(m: HandModel, pid: PlayerId, action: PlayerAction)
    requires
        m.sound(),
    ensures
        m.preview(pid, action) is Ok <==> m.applied(pid, action).1 is Ok,
        m.preview(pid, action) matches Err(e) ==> m.applied(pid, action).1 == Err::<
            bool,
            ActionError,
        >(e),
        m.preview(pid, action) matches Ok(p) ==> {
            let n = m.applied(pid, action).0;
            let k = m.seat_index(pid);
            &&& m.applied(pid, action).1 == Ok::<bool, ActionError>(p.round_closed_after)
            &&& p.stack_before == m.seats[k].stack
            &&& p.stack_after == n.seats[k].stack
            &&& p.all_in_after == n.seats[k].all_in
            &&& p.current_bet_after == n.snapshot().current_bet
            &&& p.min_raise_to_after == n.snapshot().min_raise_to
            &&& p.next_actor == n.snapshot().current_actor
            &&& p.street_after == n.snapshot().street
            &&& p.hand_done_after == (n.phase is Done)
        },
{
    if m.applied(pid, action).1 is Ok {
        invariants::lemma_acted(m, pid, action);
        actions::lemma_applied_shape(m, pid, action);
        let n = m.acted(pid, action);
        invariants::lemma_street_closed(n);
        seqs::lemma_first_index_same(
            n.seats,
            m.seats,
            model::is_seat_of(pid),
            model::is_seat_of(pid),
        );
    }
}

// ---- cards dealt elsewhere ----
/// The engine knows no hole cards, and has reported none.
pub open spec fn sealed(m: HandModel) -> bool {
    &&& m.mode == HandMode::Blind
    &&& forall|k: int| 0 <= k < m.seats.len() ==> (#[trigger] m.seats[k]).hole is Opaque
    &&& forall|i: int|
        0 <= i < m.events.len() ==> !((#[trigger] m.events[i]) is HoleCardsDealt)
}

proof fn lemma_reporting_sealed(m: HandModel, e: EventModel)
    requires
        sealed(m),
        !(e is HoleCardsDealt),
    ensures
        sealed(m.reporting(e)),
{
    let n = m.reporting(e);
    assert forall|i: int| 0 <= i < n.events.len() implies !(
    (#[trigger] n.events[i]) is HoleCardsDealt) by {
        if i < m.events.len() {
            assert(n.events[i] == m.events[i]);
        }
    }
}

proof fn lemma_closed_sealed(m: HandModel)
    requires
        sealed(m),
        m.phase is Betting,
    ensures
        sealed(m.street_closed().0),
{
    let b = m.banked();
    if let Some(s) = model::street_after(b.street()) {
        let o = b.board_advanced(s).round_opened(s);
        let t = o.state_reported();
        assert(o.events == m.events);
        assert forall|i: int| 0 <= i < t.events.len() implies !(
        (#[trigger] t.events[i]) is HoleCardsDealt) by {
            if i < t.events.len() - 1 {
                assert(t.events[i] == m.events[i]);
            } else {
                assert(!(m.events[i] is HoleCardsDealt));
            }
        }
    }
}

/// While a hand whose cards are dealt elsewhere is played, the engine learns no
/// hole cards and reports none: not when it begins, not by an action, not by the board.
pub proof fn law_blind_play_stays_sealed(
    m: HandModel,
    pid: PlayerId,
    action: PlayerAction,
    cards: Seq<Card>,
)
    requires
        m.wf(),
        sealed(m),
    ensures
        sealed(m.started().0),
        sealed(m.applied(pid, action).0),
        m.board_refusal(cards) is None ==> sealed(m.board_taken(cards)),
        forall|k: int|
            0 <= k < m.seats.len() ==> (#[trigger] m.snapshot().players[k]).hole_cards is None,
{
    // The beginning.
    if m.start_refusal() is None {
        start::lemma_recorded(m);
        start::lemma_dealt(m);
        let a = m.announced();
        lemma_reporting_sealed(m, a.events.last());
        assert(a.events =~= m.events.push(a.events.last()));
        let d = a.blinds_recorded().holes_dealt();
        assert(d.events == a.events);
        assert(sealed(d));
        let p = d.preflop_opened();
        assert(sealed(p)) by {
            assert forall|k: int| 0 <= k < p.seats.len() implies (
            #[trigger] p.seats[k]).hole is Opaque by {
                assert(d.seats[k].hole is Opaque);
            }
        }
        let posts = m.opening_posts();
        let e1 = p.post_event(posts.sb, BlindKind::Small, posts.sb_posted, posts.first_seq);
        let e2 = p.post_event(
            posts.bb,
            BlindKind::Big,
            posts.bb_posted,
            model::next_number(posts.first_seq),
        );
        lemma_reporting_sealed(p, e1);
        lemma_reporting_sealed(p.reporting(e1), e2);
        let two = p.reporting(e1).reporting(e2);
        let all = match posts.straddle {
            Some((i, c)) => two.reporting(
                p.post_event(
                    i,
                    BlindKind::Straddle,
                    c,
                    model::next_number(model::next_number(posts.first_seq)),
                ),
            ),
            None => two,
        };
        if posts.straddle is Some {
            lemma_reporting_sealed(two, all.events.last());
            assert(all.events =~= two.events.push(all.events.last()));
        }
        let o = p.opening_reported(posts);
        lemma_reporting_sealed(all, o.events.last());
        assert(o.events =~= all.events.push(o.events.last()));
        assert(sealed(o));
        if o.round->Some_0.done() {
            lemma_closed_sealed(o);
        }
    }
    // An action.

    if m.refusal(pid, action) is None {
        invariants::lemma_acted(m, pid, action);
        let v = m.moved_by(pid, action);
        assert(sealed(v)) by {
            assert forall|k: int| 0 <= k < v.seats.len() implies (
            #[trigger] v.seats[k]).hole is Opaque by {
                assert(m.seats[k].hole is Opaque);
            }
        }
        let r = m.round->Some_0;
        let chips = r.chips_for(r.index_of(pid), action);
        let e = v.action_event(
            m.seat_index(pid),
            m.recorded_action(pid, action),
            chips,
            m.action_seq,
        );
        lemma_reporting_sealed(v, e);
        lemma_reporting_sealed(v.reporting(e), v.pot_event());
        let n = m.acted(pid, action);
        assert(sealed(n));
        if n.round->Some_0.done() {
            lemma_closed_sealed(n);
        }
    }
    // The board.

    if m.board_refusal(cards) is None {
        let s = m.board_shown(cards);
        lemma_reporting_sealed(m, s.events.last());
        assert(s.events =~= m.events.push(s.events.last()));
        assert(sealed(s));
        if let Some(r) = s.round {
            if r.done() {
                lemma_closed_sealed(s);
            }
        }
    }
}

/// A fresh hand whose cards are dealt elsewhere is sealed.
pub proof fn law_fresh_blind_hand_is_sealed(
    players: Seq<(PlayerId, Chips, u8)>,
    dealer_idx: usize,
    big_blind: Chips,
    small_blind: Chips,
    deck: DeckModel,
    deck_seed: DeckSeed,
)
    ensures
        sealed(
            start::fresh_hand(
                players,
                dealer_idx,
                big_blind,
                small_blind,
                HandMode::Blind,
                deck,
                deck_seed,
            ),
        ),
{
}

/// Cards of a player who folded are not taken, and no others are asked for:
/// the cards of a folded player stay hidden.
pub proof fn law_folded_cards_stay_hidden(m: HandModel, pid: PlayerId, h: HoleCards)
    requires
        m.mode == HandMode::Blind,
        m.seat_index(pid) < m.seats.len(),
        m.seats[m.seat_index(pid)].folded,
    ensures
        m.reveal_refusal(pid, h) is Some,
        m.phase is Done ==> m.reveal_refusal(pid, h) == Some(BlindInjectError::PlayerFolded(pid)),
{
}

/// A hand dealt elsewhere that at most one player is left in is settled without
/// a showdown: nobody shows, and no hand is named.
pub proof fn law_uncontested_hand_shows_nothing(m: HandModel)
    requires
        m.mode == HandMode::Blind,
        m.phase is Done,
        m.active_count() <= 1,
    ensures
        outcome::blind_result(m) == Ok::<ResultModel, BlindFinishError>(outcome::lone_result(m)),
        outcome::forfeit_result(m) == Ok::<ResultModel, BlindFinishError>(outcome::lone_result(m)),
        outcome::lone_result(m).showdown.len() == 0,
        outcome::lone_result(m).show_order.len() == 0,
        outcome::lone_result(m).folded_hole_cards == Map::<u64, HoleCards>::empty(),
{
}

/// Showing the same cards again is accepted and changes nothing; showing
/// others is refused.
pub proof fn law_reveal_is_idempotent(m: HandModel, pid: PlayerId, h: HoleCards, other: HoleCards)
    requires
        m.sound(),
        m.reveal_refusal(pid, h) is None,
        other != h,
    ensures
        m.revealed(pid, h).reveal_refusal(pid, h) is None,
        m.revealed(pid, h).revealed(pid, h) == m.revealed(pid, h),
        m.revealed(pid, h).reveal_refusal(pid, other) == Some(
            BlindInjectError::AlreadyRevealed(pid),
        ),
{
    let n = m.revealed(pid, h);
    invariants::lemma_seat_index(m, pid);
    seqs::lemma_first_index_same(n.seats, m.seats, model::is_seat_of(pid), model::is_seat_of(pid));
    assert(n.revealed(pid, h).seats =~= n.seats);
}

/// Cards that are taken were not known before, and none is given twice.
pub proof fn law_taken_cards_are_new(m: HandModel, cards: Seq<Card>)
    requires
        m.first_known(cards, 0) is None,
    ensures
        seqs::distinct(cards),
        forall|i: int| 0 <= i < cards.len() ==> !m.knows(#[trigger] cards[i]),
{
    lemma_first_known(m, cards, 0);
    assert forall|i: int, j: int| #![trigger cards[i], cards[j]] 0 <= i < j < cards.len(
    ) implies cards[i]
        != cards[j] by {
        let head = cards.take(j);
        assert(head[i] == cards[i]);
        assert(!head.contains(cards[j]));
    }
}

proof fn lemma_first_known(m: HandModel, cards: Seq<Card>, i: int)
    requires
        0 <= i,
        m.first_known(cards, i) is None,
    ensures
        forall|j: int|
            i <= j < cards.len() ==> !m.knows(#[trigger] cards[j]) && !cards.take(j).contains(
                cards[j],
            ),
    decreases cards.len() - i,
{
    if i < cards.len() {
        lemma_first_known(m, cards, i + 1);
    }
}

// ---- records ----
/// The number of the action at place `i`: the largest `u16` is repeated.
pub open spec fn number_at(i: int) -> int {
    if i < u16::MAX {
        i
    } else {
        u16::MAX as int
    }
}

/// The actions are numbered in order from zero.
pub open spec fn numbered_in_order(m: HandModel) -> bool {
    &&& m.action_seq == number_at(m.actions.len() as int)
    &&& forall|i: int| 0 <= i < m.actions.len() ==> (#[trigger] m.actions[i]).seq == number_at(i)
}

proof fn lemma_numbered_push(m: HandModel, a: ActionRecord, n: HandModel)
    requires
        numbered_in_order(m),
        a.seq == m.action_seq,
        n.actions == m.actions.push(a),
        n.action_seq == model::next_number(m.action_seq),
    ensures
        numbered_in_order(n),
{
    assert forall|i: int| 0 <= i < n.actions.len() implies (#[trigger] n.actions[i]).seq
        == number_at(i) by {
        if i < m.actions.len() {
            assert(n.actions[i] == m.actions[i]);
        }
    }
}

/// Beginning a hand and taking actions keep the actions numbered in order.
pub proof fn law_actions_are_numbered(m: HandModel, pid: PlayerId, action: PlayerAction)
    requires
        m.wf(),
        numbered_in_order(m),
    ensures
        numbered_in_order(m.started().0),
        numbered_in_order(m.applied(pid, action).0),
{
    if m.start_refusal() is None {
        let a = m.announced();
        let (sb, bb) = m.blinds();
        let p = m.post_of(sb, m.small_blind);
        let q = m.post_of(bb, m.big_blind);
        let one = a.recorded_post(sb, BlindKind::Small, m.small_blind, 0);
        let two = one.recorded_post(bb, BlindKind::Big, m.big_blind, p as int);
        lemma_numbered_push(a, one.actions.last(), one);
        lemma_numbered_push(one, two.actions.last(), two);
        if let Some(i) = m.straddler() {
            let three = two.recorded_post(
                i,
                BlindKind::Straddle,
                m.forced_straddle->Some_0,
                p + q,
            );
            lemma_numbered_push(two, three.actions.last(), three);
        }
        let r = a.blinds_recorded();
        assert(numbered_in_order(r));
        if m.can_deal() {
            let o = r.holes_dealt().preflop_opened().opening_reported(m.opening_posts());
            invariants::lemma_street_closed(o);
        }
    }
    if m.refusal(pid, action) is None {
        let n = m.acted(pid, action);
        let v = m.moved_by(pid, action);
        lemma_numbered_push(m, v.actions.last(), v);
        invariants::lemma_street_closed(n);
    }
}

/// In a hand that has begun, the small blind is action 0 and the big blind
/// action 1; a straddle is action 2; the first action that a player chooses
/// comes after them.
pub proof fn law_forced_bets_come_first(m: HandModel)
    requires
        m.wf(),
        m.actions.len() == 0,
        m.action_seq == 0,
        m.started().1 is Ok,
    ensures
        ({
            let n = m.started().0;
            let (sb, bb) = m.blinds();
            &&& n.actions.len() == if m.straddler() is Some {
                3int
            } else {
                2int
            }
            &&& n.action_seq == n.actions.len()
            &&& n.actions[0].seq == 0 && n.actions[0].player_id == m.seats[sb].player_id
            &&& n.actions[1].seq == 1 && n.actions[1].player_id == m.seats[bb].player_id
            &&& m.straddler() matches Some(i) ==> n.actions[2].seq == 2 && n.actions[2].player_id
                == m.seats[i].player_id
            &&& forall|i: int| 0 <= i < n.actions.len(
            ) ==> (#[trigger] n.actions[i]).action is Blind
        }),
{
    let r = m.announced().blinds_recorded();
    let o = r.holes_dealt().preflop_opened().opening_reported(m.opening_posts());
    invariants::lemma_street_closed(o);
}

/// There is no straddle between two players, whatever is forced.
pub proof fn law_no_straddle_heads_up(m: HandModel)
    requires
        m.seats.len() <= 2,
    ensures
        m.straddler() is None,
        m.bring_in() == m.big_blind,
{
}

/// What the actions of a street meant is told of exactly the actions that
/// players chose on it, in order. Forced bets are never aggression, and only a
/// raise or an all-in raises the bet.
pub proof fn law_facts_tell_the_chosen_actions(
    actions: Seq<ActionRecord>,
    street: Street,
    bet: int,
    raise: int,
)
    ensures
        ({
            let facts = model::street_story(actions, street, bet, raise).facts;
            &&& facts.len() == seqs::pick(
                actions,
                model::chosen_on(street),
                model::who_and_what(),
            ).len()
            &&& forall|i: int|
                0 <= i < facts.len() ==> ((#[trigger] facts[i]).player_id, facts[i].action)
                    == seqs::pick(actions, model::chosen_on(street), model::who_and_what())[i]
            &&& forall|i: int|
                0 <= i < facts.len() ==> !((#[trigger] facts[i]).action is Blind) && (
                facts[i].full_raise ==> facts[i].increased_bet) && (facts[i].increased_bet
                    ==> game::aggressive(facts[i].action))
        }),
    decreases actions.len(),
{
    if actions.len() > 0 {
        law_facts_tell_the_chosen_actions(actions.drop_last(), street, bet, raise);
        let before = model::street_story(actions.drop_last(), street, bet, raise).facts;
        let facts = model::street_story(actions, street, bet, raise).facts;
        let all = seqs::pick(actions, model::chosen_on(street), model::who_and_what());
        let rest = seqs::pick(actions.drop_last(), model::chosen_on(street), model::who_and_what());
        assert forall|i: int| 0 <= i < facts.len() implies (
            (#[trigger] facts[i]).player_id,
            facts[i].action,
        ) == all[i] by {
            if i < before.len() {
                assert(facts[i] == before[i]);
                assert(all[i] == rest[i]);
            }
        }
        assert forall|i: int| 0 <= i < facts.len() implies !(
        (#[trigger] facts[i]).action is Blind) && (facts[i].full_raise
            ==> facts[i].increased_bet) && (facts[i].increased_bet ==> game::aggressive(
            facts[i].action,
        )) by {
            if i < before.len() {
                assert(facts[i] == before[i]);
            }
        }
    }
}

// ---- the board ----
/// The board holds the cards of the streets up to `s`, and no others.
pub open spec fn board_fits(b: BoardModel, s: Street) -> bool {
    &&& b.flop is Some <==> s.order() >= 1
    &&& b.flop matches Some(f) ==> f.len() == 3
    &&& b.turn is Some <==> s.order() >= 2
    &&& b.river is Some <==> s.order() >= 3
}

/// In a hand that the engine deals, the board holds the cards of the streets
/// that were reached. A hand that ends with two or more players has reached the river.
pub open spec fn on_schedule(m: HandModel) -> bool {
    &&& m.mode == HandMode::Plaintext
    &&& board_fits(m.board, m.street())
    &&& m.phase is Done && m.active_count() >= 2 ==> m.street() == Street::River
}

proof fn lemma_closed_on_schedule(m: HandModel)
    requires
        m.sound(),
        m.phase is Betting,
        on_schedule(m),
    ensures
        on_schedule(m.street_closed().0),
    decreases 3 - m.street().order(),
{
    invariants::lemma_banked(m);
    let b = m.banked();
    if let Some(s) = model::street_after(b.street()) {
        if b.active_count() > 1 && b.deck.left() >= game::street_cards(s) {
            let a = b.board_advanced(s);
            assert(a.sound());
            invariants::lemma_round_opened(a, s);
            let o = a.round_opened(s).state_reported();
            assert(o.sound());
            lemma_closed_on_schedule(o);
        }
    }
}

/// Playing keeps the board on schedule: a contested hand that the engine deals
/// goes to its showdown with five cards on the board.
pub proof fn law_board_keeps_schedule(m: HandModel, pid: PlayerId, action: PlayerAction)
    requires
        m.wf(),
        on_schedule(m),
    ensures
        on_schedule(m.started().0),
        on_schedule(m.applied(pid, action).0),
        m.phase is Done && m.active_count() >= 2 ==> m.board.cards().len() == 5,
{
    if m.start_refusal() is None && m.can_deal() {
        start::lemma_recorded(m);
        start::lemma_dealt(m);
        let d = m.announced().blinds_recorded().holes_dealt();
        invariants::lemma_preflop_opened(d);
        let p = d.preflop_opened();
        start::lemma_opening_reported(p, m.opening_posts());
        let o = p.opening_reported(m.opening_posts());
        assert(o.sound());
        if o.round->Some_0.done() {
            lemma_closed_on_schedule(o);
        }
    }
    if m.refusal(pid, action) is None {
        invariants::lemma_acted(m, pid, action);
        let n = m.acted(pid, action);
        if n.round->Some_0.done() {
            lemma_closed_on_schedule(n);
        }
    }
}

/// The cards that would have come are those that the deck would have dealt, in
/// order, and no more than the board lacks.
pub proof fn law_missing_board_is_the_top_of_the_deck(m: HandModel)
    requires
        m.sound(),
        on_schedule(m),
        m.phase is Done,
    ensures
        m.missing_board().len() + m.board.cards().len() <= 5,
        m.deck.left() + m.board.cards().len() >= 5 ==> m.missing_board().len()
            + m.board.cards().len() == 5,
        forall|i: int|
            0 <= i < m.missing_board().len() ==> #[trigger] m.missing_board()[i]
                == m.deck.cards[m.deck.next + i],
{
}

// ---- the showdown ----
/// The players left show in turn, each once, and nobody else does.
pub proof fn law_show_order_lists_the_players_left(m: HandModel, pid: PlayerId)
    requires
        m.sound(),
        m.active_count() >= 2,
    ensures
        seqs::distinct(outcome::show_order(m)),
        outcome::show_order(m).len() == m.active_count(),
        outcome::show_order(m).contains(pid) <==> (m.seat_index(pid) < m.seats.len()
            && !m.seats[m.seat_index(pid)].folded),
{
    let n = m.seats.len() as int;
    seqs::lemma_count_bounds(m.seats, model::in_hand());
    let left = m.left_of_button();
    assert(0 <= left < n);
    invariants::lemma_seat_index(m, model::last_raiser(m.facts_of(Street::River))->Some_0);
    seqs::lemma_first_index(m.seats_from(left), model::in_hand());
    let start = outcome::show_start(m);
    assert(0 <= start < n);
    let row = m.seats_from(start);
    let ids = model::seat_ids(m.seats);
    assert forall|i: int, j: int| #![trigger row[i], row[j]] 0 <= i < j < row.len(
    ) implies model::seat_player(
    )(
        row[i],
    ) != model::seat_player()(row[j]) by {
        invariants::lemma_wrap(start, i, n);
        invariants::lemma_wrap(start, j, n);
        let a = (start + i) % n;
        let b = (start + j) % n;
        assert(a != b);
        assert(ids[a] == row[i].player_id && ids[b] == row[j].player_id);
        assert(a < b ==> ids[a] != ids[b]);
        assert(b < a ==> ids[b] != ids[a]);
    }
    seqs::lemma_pick_distinct(row, model::in_hand(), model::seat_player());
    seqs::lemma_pick_from(row, model::in_hand(), model::seat_player());
    lemma_rotated_count(m, start);
    let order = outcome::show_order(m);
    invariants::lemma_seat_index(m, pid);
    if order.contains(pid) {
        let k = choose|k: int| 0 <= k < order.len() && order[k] == pid;
        assert(seqs::comes_from(row, model::in_hand(), model::seat_player(), order[k]));
        let i = choose|i: int|
            0 <= i < row.len() && model::in_hand()(#[trigger] row[i]) && model::seat_player(
            )(row[i])
                == order[k];
        invariants::lemma_wrap(start, i, n);
        invariants::lemma_own_seat(m, (start + i) % n);
    }
    let k = m.seat_index(pid);
    if k < n && !m.seats[k].folded {
        let i = if k >= start {
            k - start
        } else {
            k - start + n
        };
        invariants::lemma_wrap(start, i, n);
        assert(row[i] == m.seats[k]);
        seqs::lemma_pick_has(row, i, model::in_hand(), model::seat_player());
    }
}

/// Going round the table counts every seat once.
proof fn lemma_rotated_count(m: HandModel, start: int)
    requires
        0 <= start < m.seats.len(),
    ensures
        seqs::count_of(m.seats_from(start), model::in_hand()) == m.active_count(),
{
    let n = m.seats.len() as int;
    let row = m.seats_from(start);
    let head = m.seats.skip(start);
    let tail = m.seats.take(start);
    assert(row =~= head + tail) by {
        assert forall|i: int| 0 <= i < n implies row[i] == (head + tail)[i] by {
            invariants::lemma_wrap(start, i, n);
        }
    }
    assert(m.seats =~= tail + head);
    seqs::lemma_count_concat(head, tail, model::in_hand());
    seqs::lemma_count_concat(tail, head, model::in_hand());
}

/// The order for odd chips: the player `k` places left of the button has place `k`.
pub proof fn law_button_order_counts_from_the_left(m: HandModel, k: int)
    requires
        m.sound(),
        0 <= k < m.seats.len(),
    ensures
        ({
            let s = m.seats[(m.left_of_button() + k) % (m.seats.len() as int)];
            &&& outcome::button_order(m).contains_key(s.player_id.0)
            &&& outcome::button_order(m)[s.player_id.0] == k
        }),
{
    lemma_order_up_to(m, m.seats.len() as int, k);
}

proof fn lemma_order_up_to(m: HandModel, upto: int, k: int)
    requires
        m.sound(),
        0 <= k < upto <= m.seats.len(),
    ensures
        ({
            let s = m.seats[(m.left_of_button() + k) % (m.seats.len() as int)];
            &&& outcome::order_up_to(m, upto).contains_key(s.player_id.0)
            &&& outcome::order_up_to(m, upto)[s.player_id.0] == k
        }),
    decreases upto,
{
    let n = m.seats.len() as int;
    let left = m.left_of_button();
    assert(0 <= left < n);
    if k < upto - 1 {
        lemma_order_up_to(m, upto - 1, k);
        invariants::lemma_wrap(left, k, n);
        invariants::lemma_wrap(left, upto - 1, n);
        let a = (left + k) % n;
        let b = (left + (upto - 1)) % n;
        let ids = model::seat_ids(m.seats);
        assert(a != b);
        assert(a < b ==> ids[a] != ids[b]);
        assert(b < a ==> ids[b] != ids[a]);
        assert(m.seats[a].player_id == ids[a] && m.seats[b].player_id == ids[b]);
        assert(m.seats[a].player_id.0 != m.seats[b].player_id.0);
    }
}

/// Every winner at a showdown of the engine's own deal is in the hand, unless
/// the pot goes back unmatched.
pub proof fn law_only_players_left_win(m: HandModel, i: int)
    requires
        m.sound(),
        0 <= i < m.hand_pots().len(),
        m.hand_pots()[i].refund_to.len() == 0,
        pots::contenders(m.hand_pots()[i].eligible, outcome::dealt_hands(m)).len() > 0,
    ensures
        forall|k: int|
            0 <= k < pots::showdown_recipients(
                m.hand_pots()[i],
                outcome::dealt_hands(m),
                m.board,
                Set::empty(),
            ).0.len() ==> is_left(
                m,
                #[trigger] pots::showdown_recipients(
                    m.hand_pots()[i],
                    outcome::dealt_hands(m),
                    m.board,
                    Set::empty(),
                ).0[k],
            ),
{
    let pot = m.hand_pots()[i];
    let hands = outcome::dealt_hands(m);
    outcome::lemma_hand_pots(m);
    assert(sidepot::settleable(pot, model::seat_ids(m.seats)));
    pots::lemma_contenders(pot.eligible, hands);
    let of = pots::contenders(pot.eligible, hands);
    eval::lemma_ranking_len(of, m.board);
    pots::lemma_leaders(of, m.board);
    let to = pots::showdown_recipients(pot, hands, m.board, Set::empty()).0;
    assert forall|k: int| 0 <= k < to.len() implies is_left(m, #[trigger] to[k]) by {
        assert(pots::holds_best(of, m.board, to[k]));
        let j = choose|j: int|
            0 <= j < of.len() && (#[trigger] of[j]).0 == to[k] && forall|h: int|
                0 <= h < of.len() ==> !eval::rank_on_board(of[j].1, m.board).loses_to(
                    eval::rank_on_board((#[trigger] of[h]).1, m.board),
                );
        assert(hands.contains(of[j]));
        let h = choose|h: int| 0 <= h < hands.len() && hands[h] == of[j];
        seqs::lemma_pick_from(m.seats, outcome::can_show(), outcome::known_hand());
        assert(seqs::comes_from(m.seats, outcome::can_show(), outcome::known_hand(), hands[h]));
        let s = choose|s: int|
            0 <= s < m.seats.len() && outcome::can_show(
            )(#[trigger] m.seats[s]) && outcome::known_hand(
            )(
                m.seats[s],
            ) == hands[h];
        invariants::lemma_own_seat(m, s);
    }
}

/// `pid` is in the hand and has not folded.
pub open spec fn is_left(m: HandModel, pid: PlayerId) -> bool {
    m.seat_index(pid) < m.seats.len() && !m.seats[m.seat_index(pid)].folded
}

} // verus!
