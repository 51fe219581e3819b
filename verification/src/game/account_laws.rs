//! What holds of a hand's records, reports, raises and cards.

use crate::action::{ActionRecord, BlindKind, PlayerAction};
use crate::card::Card;
use crate::event::EventModel;
use crate::game::invariants;
use crate::game::laws;
use crate::game::model;
use crate::game::start;
use crate::game;
use crate::hand::HoleCards;
use crate::player::{Chips, PlayerId};
use crate::round;
use crate::seqs;
use super::model::HandModel;
use super::{HandMode, HoleSlot};
use vstd::prelude::*;

verus! {

// ---- records ----
/// Every record balances: the chips of the action leave the stack and come to
/// the pot, which holds the chips of all the actions before.
pub open spec fn records_add_up(actions: Seq<ActionRecord>) -> bool {
    forall|i: int|
        0 <= i < actions.len() ==> {
            let a = #[trigger] actions[i];
            &&& a.stack_before.0 == a.stack_after.0 + a.amount.0
            &&& a.pot_before.0 == seqs::sum_of(actions.take(i), model::record_chips())
            &&& a.pot_after.0 == a.pot_before.0 + a.amount.0
        }
}

proof fn lemma_records_push(actions: Seq<ActionRecord>, a: ActionRecord)
    requires
        records_add_up(actions),
        a.stack_before.0 == a.stack_after.0 + a.amount.0,
        a.pot_before.0 == seqs::sum_of(actions, model::record_chips()),
        a.pot_after.0 == a.pot_before.0 + a.amount.0,
    ensures
        records_add_up(actions.push(a)),
        seqs::sum_of(actions.push(a), model::record_chips()) == a.pot_after.0,
{
    let all = actions.push(a);
    seqs::lemma_sum_push(actions, a, model::record_chips());
    assert forall|i: int| 0 <= i < all.len() implies {
        let b = #[trigger] all[i];
        &&& b.stack_before.0 == b.stack_after.0 + b.amount.0
        &&& b.pot_before.0 == seqs::sum_of(all.take(i), model::record_chips())
        &&& b.pot_after.0 == b.pot_before.0 + b.amount.0
    } by {
        if i < actions.len() {
            assert(all[i] == actions[i]);
            assert(all.take(i) =~= actions.take(i));
        } else {
            assert(all.take(i) =~= actions);
        }
    }
}

/// From the beginning on, the records balance, one after the other.
pub proof fn law_records_balance(m: HandModel, pid: PlayerId, action: PlayerAction)
    requires
        m.wf(),
        records_add_up(m.actions),
    ensures
        m.actions.len() == 0 ==> records_add_up(m.started().0.actions),
        records_add_up(m.applied(pid, action).0.actions),
{
    if m.actions.len() == 0 && m.start_refusal() is None {
        let a = m.announced();
        let (sb, bb) = m.blinds();
        let p = m.post_of(sb, m.small_blind);
        let q = m.post_of(bb, m.big_blind);
        start::lemma_posts_fit(m);
        let one = a.recorded_post(sb, BlindKind::Small, m.small_blind, 0);
        let two = one.recorded_post(bb, BlindKind::Big, m.big_blind, p as int);
        lemma_records_push(a.actions, one.actions.last());
        assert(one.actions =~= a.actions.push(one.actions.last()));
        lemma_records_push(one.actions, two.actions.last());
        assert(two.actions =~= one.actions.push(two.actions.last()));
        if let Some(i) = m.straddler() {
            let three = two.recorded_post(
                i,
                BlindKind::Straddle,
                m.forced_straddle->Some_0,
                p + q,
            );
            lemma_records_push(two.actions, three.actions.last());
            assert(three.actions =~= two.actions.push(three.actions.last()));
        }
        if m.can_deal() {
            let d = a.blinds_recorded().holes_dealt();
            invariants::lemma_street_closed(d.preflop_opened().opening_reported(m.opening_posts()));
        }
    }
    if m.refusal(pid, action) is None {
        invariants::lemma_acted(m, pid, action);
        invariants::lemma_pot_bounds(m);
        let v = m.moved_by(pid, action);
        lemma_records_push(m.actions, v.actions.last());
        assert(v.actions =~= m.actions.push(v.actions.last()));
        invariants::lemma_street_closed(m.acted(pid, action));
    }
}

/// The pot of a hand that has begun is what its records say was put in.
pub proof fn law_pot_is_on_record(m: HandModel)
    requires
        m.wf(),
        !(m.phase is NotStarted),
    ensures
        m.pot() == seqs::sum_of(m.actions, model::record_chips()),
{
}

/// An action that is taken gets the number that was announced for it, and is
/// the last on record; what was on record stays.
pub proof fn law_next_action_has_the_next_number(m: HandModel, pid: PlayerId, action: PlayerAction)
    requires
        m.sound(),
        m.refusal(pid, action) is None,
    ensures
        ({
            let n = m.applied(pid, action).0;
            &&& n.actions.len() == m.actions.len() + 1
            &&& n.actions.drop_last() == m.actions
            &&& n.actions.last().seq == m.action_seq
            &&& n.actions.last().player_id == pid
            &&& n.action_seq == model::next_number(m.action_seq)
        }),
{
    invariants::lemma_acted(m, pid, action);
    invariants::lemma_street_closed(m.acted(pid, action));
    assert(m.moved_by(pid, action).actions.drop_last() =~= m.actions);
}

/// No call of nothing is ever put on record: it is recorded as a check. Checks
/// and folds move no chips.
pub proof fn law_no_empty_call_on_record(m: HandModel, pid: PlayerId, action: PlayerAction)
    requires
        m.sound(),
        m.refusal(pid, action) is None,
    ensures
        ({
            let a = m.applied(pid, action).0.actions.last();
            &&& a.action is Call ==> a.amount.0 > 0
            &&& a.action is Check || a.action is Fold ==> a.amount.0 == 0
        }),
{
    invariants::lemma_acted(m, pid, action);
    invariants::lemma_street_closed(m.acted(pid, action));
    let r = m.round->Some_0;
    round::lemma_chips_for(r, pid, action);
    round::lemma_top_stake(r.players);
}

// ---- raises ----
/// Where a least raise is shown, the player whose turn it is may raise to it,
/// or go all in where that is less. Where none is shown, the player may not
/// raise at all. The least raise must exceed the bet, which it does but for a
/// big blind of nothing.
pub proof fn law_shown_raise_is_open(m: HandModel, amount: Chips)
    requires
        m.sound(),
        m.current_actor() is Some,
    ensures
        ({
            let pid = m.current_actor()->Some_0;
            let r = m.round->Some_0;
            let p = r.players[r.actor];
            let whole = p.stack.0 + p.contributed.0;
            &&& m.snapshot().min_raise_to matches Some(c) ==> {
                &&& m.refusal(pid, PlayerAction::AllIn) is None
                &&& c.0 > m.current_bet() && c.0 <= whole ==> m.refusal(
                    pid,
                    PlayerAction::Raise { amount: c },
                ) is None
                &&& c.0 <= amount.0 <= whole && amount.0 > m.current_bet() ==> m.refusal(
                    pid,
                    PlayerAction::Raise { amount },
                ) is None
            }
            &&& m.snapshot().min_raise_to is None ==> {
                &&& amount.0 > m.current_bet() ==> m.refusal(
                    pid,
                    PlayerAction::Raise { amount },
                ) is Some
                &&& whole > m.current_bet() ==> m.refusal(pid, PlayerAction::AllIn) is Some
            }
        }),
{
    let r = m.round->Some_0;
    let pid = r.players[r.actor].player_id;
    laws::law_turn_is_of_a_live_player(m);
    seqs::lemma_first_index(r.players, round::is_player(pid));
    round::lemma_top_stake(r.players);
    assert(round::is_player(pid)(r.players[r.actor]));
    let i = r.index_of(pid);
    if i != r.actor {
        let ids = round::player_ids(r.players);
        assert(ids[i] == ids[r.actor]);
    }
    seqs::lemma_sum_member(r.players, r.actor, round::all_chips());
}

// ---- reports ----
proof fn lemma_closed_keeps_event(m: HandModel, k: int)
    requires
        m.phase is Betting,
        0 <= k < m.events.len(),
        !(m.events[k] is StreetRevealed),
    ensures
        k < m.street_closed().0.events.len(),
        m.street_closed().0.events[k] == m.events[k],
    decreases 3 - m.street().order(),
{
    let b = m.banked();
    if let Some(s) = model::street_after(b.street()) {
        if b.active_count() > 1 && !(b.mode == HandMode::Plaintext && b.deck.left()
            < game::street_cards(s)) {
            let a = b.board_advanced(s).round_opened(s);
            assert(a.events[k] == m.events[k]);
            let o = a.state_reported();
            assert(o.events[k] == m.events[k]);
            if o.mode == HandMode::Plaintext && o.round->Some_0.done() {
                lemma_closed_keeps_event(o, k);
            }
        }
    }
}

/// The first thing that a hand reports when it begins is that it begins, with
/// the seats of the button and the blinds.
pub proof fn law_beginning_is_reported_first(m: HandModel)
    requires
        m.wf(),
        m.start_refusal() is None,
    ensures
        ({
            let n = m.started().0;
            let k = m.events.len() as int;
            &&& k < n.events.len()
            &&& n.events[k] matches EventModel::HandStarted { dealer_seat, sb_seat, bb_seat, .. }
                && dealer_seat == m.dealer_seat() && sb_seat == m.seats[m.blinds().0].seat
                && bb_seat == m.seats[m.blinds().1].seat
        }),
{
    let k = m.events.len() as int;
    let a = m.announced();
    assert(a.events[k] is HandStarted);
    let d = a.blinds_recorded().holes_dealt();
    assert(d.events == a.events);
    if m.can_deal() {
        let o = d.preflop_opened().opening_reported(m.opening_posts());
        assert(o.events[k] == a.events[k]);
        if o.round->Some_0.done() {
            lemma_closed_keeps_event(o, k);
        }
    }
}

/// An action that moves chips reports the pot, and every action reports itself
/// with its number.
pub proof fn law_actions_are_reported(m: HandModel, pid: PlayerId, action: PlayerAction)
    requires
        m.sound(),
        m.refusal(pid, action) is None,
    ensures
        ({
            let n = m.applied(pid, action).0;
            let k = m.events.len() as int;
            let chips = n.actions.last().amount;
            &&& k < n.events.len()
            &&& n.events[k] matches EventModel::ActionApplied { action: told, contributed, action_seq, .. }
                && told == n.actions.last().action && contributed == chips.0 && action_seq
                == m.action_seq
            &&& chips.0 > 0 ==> k + 1 < n.events.len(
            ) && (n.events[k + 1] matches EventModel::PotUpdated {
                pot,
                ..
            } && pot == m.pot() + chips.0)
        }),
{
    invariants::lemma_acted(m, pid, action);
    invariants::lemma_pot_bounds(m);
    let v = m.moved_by(pid, action);
    invariants::lemma_committed(v);
    let n = m.acted(pid, action);
    let k = m.events.len() as int;
    invariants::lemma_street_closed(n);
    assert(v.pot() == v.committed());
    assert(n.events[k] is ActionApplied);
    if n.round->Some_0.done() {
        lemma_closed_keeps_event(n, k);
        if n.actions.last().amount.0 > 0 {
            lemma_closed_keeps_event(n, k + 1);
        }
    }
}

// ---- cards ----
/// The cards of a hand that the engine deals come off its deck in order: one to
/// each seat, another to each seat, then the board.
pub open spec fn dealt_in_order(m: HandModel) -> bool {
    let n = m.seats.len() as int;
    &&& m.deck.wf()
    &&& m.deck.next == 2 * n + m.board.cards().len()
    &&& m.board.cards() == m.deck.cards.subrange(2 * n, m.deck.next)
    &&& forall|i: int|
        0 <= i < n ==> (#[trigger] m.seats[i]).hole == HoleSlot::Plain(
            HoleCards { card1: m.deck.cards[i], card2: m.deck.cards[n + i] },
        )
}

proof fn lemma_closed_dealt(m: HandModel)
    requires
        m.sound(),
        m.phase is Betting,
        laws::on_schedule(m),
        dealt_in_order(m),
        m.street_closed().1 is Ok,
    ensures
        dealt_in_order(m.street_closed().0),
    decreases 3 - m.street().order(),
{
    invariants::lemma_banked(m);
    let b = m.banked();
    if let Some(s) = model::street_after(b.street()) {
        if b.active_count() > 1 {
            let a = b.board_advanced(s);
            assert(a.sound());
            invariants::lemma_round_opened(a, s);
            let o = a.round_opened(s).state_reported();
            assert(o.sound());
            let n = m.seats.len() as int;
            let cards = b.next_cards(game::street_cards(s));
            assert(o.board.cards() =~= m.board.cards() + cards);
            assert(o.board.cards() =~= m.deck.cards.subrange(2 * n, o.deck.next));
            assert(dealt_in_order(o)) by {
                assert forall|i: int| 0 <= i < n implies (#[trigger] o.seats[i]).hole
                    == HoleSlot::Plain(
                    HoleCards { card1: o.deck.cards[i], card2: o.deck.cards[n + i] },
                ) by {
                    assert(o.seats[i] == m.seats[i]);
                }
            }
            if o.mode == HandMode::Plaintext && o.round->Some_0.done() {
                lemma_closed_dealt(o);
            }
        }
    }
}

/// The cards of a hand come off its deck in order, when it begins and after
/// every action, as long as there are cards enough.
pub proof fn law_cards_come_in_order(m: HandModel, pid: PlayerId, action: PlayerAction)
    requires
        m.wf(),
        laws::on_schedule(m),
    ensures
        m.phase is NotStarted && m.deck.next == 0 && m.started().1 is Ok ==> dealt_in_order(
            m.started().0,
        ),
        dealt_in_order(m) && m.applied(pid, action).1 is Ok ==> dealt_in_order(
            m.applied(pid, action).0,
        ),
{
    if m.start_refusal() is None && m.can_deal() && m.deck.next == 0 {
        start::lemma_recorded(m);
        start::lemma_dealt(m);
        let d = m.announced().blinds_recorded().holes_dealt();
        invariants::lemma_preflop_opened(d);
        let p = d.preflop_opened();
        start::lemma_opening_reported(p, m.opening_posts());
        let o = p.opening_reported(m.opening_posts());
        assert(o.sound());
        assert(o.board.cards() =~= Seq::<Card>::empty());
        assert(dealt_in_order(o)) by {
            let n = m.seats.len() as int;
            assert(o.board.cards() =~= o.deck.cards.subrange(2 * n, o.deck.next));
            assert forall|i: int| 0 <= i < n implies (#[trigger] o.seats[i]).hole
                == HoleSlot::Plain(
                HoleCards { card1: o.deck.cards[i], card2: o.deck.cards[n + i] },
            ) by {
                assert(o.seats[i].hole == d.seats[i].hole);
            }
        }
        if o.round->Some_0.done() && m.started().1 is Ok {
            lemma_closed_dealt(o);
        }
    }
    if m.refusal(pid, action) is None && dealt_in_order(m) {
        invariants::lemma_acted(m, pid, action);
        let n = m.acted(pid, action);
        assert(dealt_in_order(n)) by {
            let c = m.seats.len() as int;
            assert forall|i: int| 0 <= i < c implies (#[trigger] n.seats[i]).hole
                == HoleSlot::Plain(
                HoleCards { card1: n.deck.cards[i], card2: n.deck.cards[c + i] },
            ) by {
                assert(n.seats[i].hole == m.seats[i].hole);
            }
        }
        if n.round->Some_0.done() && m.applied(pid, action).1 is Ok {
            lemma_closed_dealt(n);
        }
    }
}

/// The cards that a hand has dealt: the first of each seat, the second of each
/// seat, and the board.
pub open spec fn cards_out(m: HandModel) -> Seq<Card> {
    Seq::new(m.seats.len(), |i: int| m.seats[i].hole.known()->Some_0.card1) + Seq::new(
        m.seats.len(),
        |i: int| m.seats[i].hole.known()->Some_0.card2,
    ) + m.board.cards()
}

/// From a deck without doubles no card is dealt twice.
pub proof fn law_no_card_is_dealt_twice(m: HandModel)
    requires
        dealt_in_order(m),
        seqs::distinct(m.deck.cards),
    ensures
        seqs::distinct(cards_out(m)),
{
    let n = m.seats.len() as int;
    let out = cards_out(m);
    assert(out =~= m.deck.cards.take(m.deck.next)) by {
        assert forall|k: int| 0 <= k < out.len() implies out[k] == m.deck.cards[k] by {
            if k < n {
                assert(m.seats[k].hole is Plain);
            } else if k < 2 * n {
                assert(m.seats[k - n].hole is Plain);
            }
        }
    }
    assert forall|i: int, j: int| #![trigger out[i], out[j]] 0 <= i < j < out.len() implies out[i]
        != out[j] by {
        assert(out[i] == m.deck.cards[i] && out[j] == m.deck.cards[j]);
    }
}

} // verus!
