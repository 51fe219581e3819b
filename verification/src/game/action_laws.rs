//! What an action does to a hand, what a preview and a snapshot tell of it, and
//! what its records say.

use crate::action::{ActionError, ActionRecord, PlayerAction};
use crate::game::actions;
use crate::game::invariants;
use crate::game::model;
use crate::game::showdown_laws;
use crate::hand::Street;
use crate::player::{Chips, PlayerId};
use crate::round::{PlayerState, RoundModel};
use crate::round;
use crate::seqs;
use crate::sidepot;
use super::model::HandModel;
use super::{HandSeat, Phase};
use vstd::prelude::*;

verus! {

// ---- an action ----
/// Seat `k` is that of `pid`.
pub open spec fn seat_is(m: HandModel, pid: PlayerId, k: int) -> bool {
    0 <= k < m.seats.len() && m.seats[k].player_id == pid
}

/// Why an action is refused: the hand has not begun or is over, the player has
/// no seat, or the betting round refuses it.
pub proof fn law_why_an_action_is_refused(m: HandModel, pid: PlayerId, action: PlayerAction)
    requires
        m.wf(),
    ensures
        m.phase is NotStarted ==> m.refusal(pid, action) == Some(ActionError::HandNotStarted),
        m.phase is Done ==> m.refusal(pid, action) == Some(ActionError::HandFinished),
        m.phase is Betting && (forall|k: int| !seat_is(m, pid, k)) ==> m.refusal(pid, action)
            == Some(ActionError::NotInHand),
        m.phase is Betting && (exists|k: int| seat_is(m, pid, k)) ==> m.refusal(pid, action)
            == match m.round {
            Some(r) => r.refusal(pid, action),
            None => Some(ActionError::HandFinished),
        },
        m.refusal(pid, action) matches Some(e) ==> m.applied(pid, action) == (
            m,
            Err::<bool, ActionError>(e),
        ),
{
    invariants::lemma_seat_index(m, pid);
    let k = m.seat_index(pid);
    if k < m.seats.len() {
        assert(seat_is(m, pid, k));
    }
    if exists|j: int| seat_is(m, pid, j) {
        let j = choose|j: int| seat_is(m, pid, j);
        invariants::lemma_own_seat(m, j);
    }
}

/// What is on record of an action: a call that moves no chips is a check.
pub open spec fn on_record(action: PlayerAction, chips: int) -> PlayerAction {
    if action == PlayerAction::Call && chips == 0 {
        PlayerAction::Check
    } else {
        action
    }
}

/// The record tells the action: who took it on which street, the chips it
/// moved, and the stack and the pot around it.
pub open spec fn tells_action(
    m: HandModel,
    action: PlayerAction,
    p: PlayerState,
    q: PlayerState,
    a: ActionRecord,
) -> bool {
    &&& a.seq == m.action_seq
    &&& a.street == m.street()
    &&& a.player_id == p.player_id
    &&& a.amount.0 == q.contributed.0 - p.contributed.0
    &&& a.action == on_record(action, a.amount.0 as int)
    &&& a.stack_before == p.stack
    &&& a.stack_after == q.stack
    &&& a.pot_before.0 == seqs::sum_of(
        m.seats,
        |s: HandSeat| s.starting_stack.0 - s.stack.0,
    )
    &&& a.pot_after.0 == a.pot_before.0 + a.amount.0
}

/// An action that is taken is that of the player whose turn it is. It does to
/// the player's seat what it does in the betting round, and to no other seat
/// anything; it is put on record as the last action, and remembered as the
/// player's last.
pub proof fn law_action_moves_the_players_seat(
    m: HandModel,
    pid: PlayerId,
    action: PlayerAction,
    k: int,
)
    requires
        m.wf(),
        m.refusal(pid, action) is None,
        seat_is(m, pid, k),
    ensures
        ({
            let r = m.round->Some_0;
            let p = r.players[r.actor];
            let next = r.after(r.actor, action);
            let q = next.players[r.actor];
            let n = m.applied(pid, action).0;
            &&& m.phase is Betting
            &&& m.round is Some
            &&& r.refusal(pid, action) is None
            &&& m.acted(pid, action).round == Some(next)
            &&& p.player_id == pid
            &&& p.stack == m.seats[k].stack
            &&& n.seats.len() == m.seats.len()
            &&& n.seats[k] == (HandSeat {
                stack: q.stack,
                folded: q.folded,
                all_in: q.stack.0 == 0,
                ..m.seats[k]
            })
            &&& forall|j: int|
                0 <= j < m.seats.len() && j != k ==> #[trigger] n.seats[j] == m.seats[j]
            &&& n.actions.len() == m.actions.len() + 1
            &&& forall|i: int|
                0 <= i < m.actions.len() ==> #[trigger] n.actions[i] == m.actions[i]
            &&& tells_action(m, action, p, q, n.actions.last())
            &&& n.last_action == m.last_action.insert(pid.0, n.actions.last().action)
            &&& n.action_seq == if m.action_seq < u16::MAX {
                m.action_seq + 1
            } else {
                m.action_seq as int
            }
        }),
{
    let r = m.round->Some_0;
    invariants::lemma_own_seat(m, k);
    invariants::lemma_acted(m, pid, action);
    invariants::lemma_pot_bounds(m);
    round::lemma_chips_for(r, pid, action);
    round::law_action_moves_own_chips(r, pid, action);
    round::lemma_top_stake(r.players);
    let n = m.acted(pid, action);
    invariants::lemma_street_closed(n);
    seqs::lemma_sum_same(
        m.seats,
        m.seats,
        model::put_in(),
        |s: HandSeat| s.starting_stack.0 - s.stack.0,
    );
}

// ---- a snapshot ----
/// What the table shows of the betting: the street and the board, the pots laid
/// out by the stakes, what each player has put in on the street, the bet that
/// is to be matched, and the least raise where the player to act may raise.
pub proof fn law_snapshot_shows_the_betting(m: HandModel)
    requires
        m.wf(),
    ensures
        m.snapshot().board == m.board,
        m.snapshot().pot.0 == seqs::sum_of(
            m.seats,
            |s: HandSeat| s.starting_stack.0 - s.stack.0,
        ),
        m.snapshot().players.len() == m.seats.len(),
        forall|k: int|
            0 <= k < m.seats.len() ==> (#[trigger] m.snapshot().players[k]).hole_cards
                == showdown_laws::cards_at(m.seats[k]),
        m.snapshot().street == match m.phase {
            Phase::Betting(s) => s,
            Phase::Done => match m.finished_street {
                Some(s) => s,
                None => Street::Preflop,
            },
            Phase::NotStarted => Street::Preflop,
        },
        (exists|k: int| 0 <= k < m.seats.len() && !(#[trigger] m.seats[k]).folded)
            ==> sidepot::layered_right(m.snapshot().side_pots, showdown_laws::own_stakes(m)),
        m.round is None ==> m.snapshot().current_actor is None && m.snapshot().current_bet.0 == 0
            && m.snapshot().min_raise_to is None,
        m.round matches Some(r) ==> {
            &&& m.snapshot().current_actor is None <==> r.done()
            &&& r.done() ==> m.snapshot().min_raise_to is None
            &&& !r.done() ==> {
                let c = m.snapshot().current_bet.0 as int;
                &&& m.snapshot().current_actor == Some(r.players[r.actor].player_id)
                &&& round::is_price(r, r.actor, c)
                &&& m.snapshot().min_raise_to == if round::may_exceed(r, r.actor, c) {
                    Some(Chips(round::least_raise(r, c) as u32))
                } else {
                    None
                }
            }
        },
        forall|k: int|
            0 <= k < m.seats.len() ==> shows_street_chips(
                m,
                k,
                (#[trigger] m.snapshot().players[k]).committed_this_street,
            ),
        forall|k: int|
            0 <= k < m.seats.len() ==> (#[trigger] m.snapshot().players[k]).last_action == if (
            m.last_action.contains_key(m.seats[k].player_id.0)) {
                Some(m.last_action[m.seats[k].player_id.0])
            } else {
                None
            },
{
    showdown_laws::lemma_own_stakes(m);
    invariants::lemma_pot_bounds(m);
    seqs::lemma_sum_same(
        m.seats,
        m.seats,
        model::put_in(),
        |s: HandSeat| s.starting_stack.0 - s.stack.0,
    );
    if exists|k: int| 0 <= k < m.seats.len() && !(#[trigger] m.seats[k]).folded {
        let k = choose|k: int| 0 <= k < m.seats.len() && !(#[trigger] m.seats[k]).folded;
        seqs::lemma_count_positive(m.seats, k, model::in_hand());
    }
    if let Some(r) = m.round {
        if !r.done() {
            let c = r.to_match();
            lemma_price_is(r);
            assert(m.snapshot().current_bet.0 == c);
        }
    }
    assert forall|k: int| 0 <= k < m.seats.len() implies shows_street_chips(
        m,
        k,
        (#[trigger] m.snapshot().players[k]).committed_this_street,
    ) by {
        if let Some(r) = m.round {
            seqs::lemma_first_index(r.players, round::is_player(m.seats[k].player_id));
            let i = r.index_of(m.seats[k].player_id);
            let ids = round::player_ids(r.players);
            assert forall|j: int| 0 <= j < r.players.len() && (
            #[trigger] r.players[j]).player_id == m.seats[k].player_id implies j == i by {
                assert(round::is_player(m.seats[k].player_id)(r.players[j]));
                assert(i <= j);
                assert(ids[i] == ids[j]);
            }
        }
    }
}

/// What seat `k` has put in on the street: what the betting round says of its
/// player, and nothing where the player takes no part in one.
pub open spec fn shows_street_chips(m: HandModel, k: int, chips: Chips) -> bool {
    match m.round {
        Some(r) => {
            &&& forall|j: int|
                0 <= j < r.players.len() && (#[trigger] r.players[j]).player_id
                    == m.seats[k].player_id ==> chips == r.players[j].contributed
            &&& (forall|j: int|
                0 <= j < r.players.len() ==> (#[trigger] r.players[j]).player_id
                    != m.seats[k].player_id) ==> chips.0 == 0
        },
        None => chips.0 == 0,
    }
}

proof fn lemma_price_is(r: RoundModel)
    requires
        r.wf(),
        !r.done(),
    ensures
        round::is_price(r, r.actor, r.to_match()),
        0 <= r.to_match() <= u32::MAX,
        r.may_raise(r.actor) == round::may_exceed(r, r.actor, r.to_match()),
        r.min_raise_total() == round::least_raise(r, r.to_match()),
{
    let k = r.actor;
    round::lemma_top_stake(r.players);
    assert(r.players[k].live());
    if round::has_rival(r, k) {
        let j = choose|j: int|
            0 <= j < r.players.len() && j != k && !(#[trigger] r.players[j]).folded
                && r.players[j].stack.0 > 0;
        if j < k {
            seqs::lemma_count_two(r.players, j, k, round::can_still_act());
        } else {
            seqs::lemma_count_two(r.players, k, j, round::can_still_act());
        }
    } else {
        if r.live_count() >= 2 {
            let (i, j) = seqs::lemma_count_pair(r.players, round::can_still_act());
            assert(r.players[i].live() && r.players[j].live());
            assert(round::has_rival(r, k));
        }
        if round::top_stake(r.players) == 0 {
            assert(r.players[k].contributed.0 == 0);
        }
    }
}

// ---- a preview ----
/// A preview of an action that would be taken tells what the table shows before
/// it and after it.
pub proof fn law_preview_compares_two_snapshots(
    m: HandModel,
    pid: PlayerId,
    action: PlayerAction,
    k: int,
)
    requires
        m.wf(),
        seat_is(m, pid, k),
        m.applied(pid, action).1 is Ok,
    ensures
        m.preview(pid, action) is Ok,
        ({
            let n = m.applied(pid, action).0;
            let a = m.snapshot();
            let b = n.snapshot();
            let p = m.preview(pid, action)->Ok_0;
            &&& p.stack_before == a.players[k].stack
            &&& p.stack_after == b.players[k].stack
            &&& p.committed_before == a.players[k].committed_this_street
            &&& p.committed_after == b.players[k].committed_this_street
            &&& p.current_bet_before == a.current_bet
            &&& p.current_bet_after == b.current_bet
            &&& p.min_raise_to_before == a.min_raise_to
            &&& p.min_raise_to_after == b.min_raise_to
            &&& p.all_in_after == b.players[k].all_in
            &&& p.next_actor == b.current_actor
            &&& p.next_actor_can_raise_after == (b.min_raise_to is Some)
            &&& p.street_after == b.street
            &&& p.hand_done_after == (n.phase is Done)
            &&& p.betting_terminal_after == (b.current_actor is None)
            &&& m.applied(pid, action).1 == Ok::<bool, ActionError>(p.round_closed_after)
        }),
{
    invariants::lemma_own_seat(m, k);
    invariants::lemma_acted(m, pid, action);
    invariants::lemma_applied(m, pid, action);
    actions::lemma_applied_shape(m, pid, action);
    law_action_moves_the_players_seat(m, pid, action, k);
    let n = m.applied(pid, action).0;
    assert(n.seats[k].player_id == pid);
    invariants::lemma_own_seat(n, k);
    let r = m.round->Some_0;
    round::lemma_chips_for(r, pid, action);
    law_snapshot_shows_the_betting(n);
}

} // verus!
