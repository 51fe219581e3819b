//! What a hand reports: each event, in its place and with what it tells.

use crate::action::{BlindKind, PlayerAction};
use crate::event::EventModel;
use crate::game;
use crate::game::invariants;
use crate::game::model;
use crate::game::outcome;
use crate::game::showdown_laws;
use crate::game::table_laws;
use crate::hand::Street;
use crate::player::{Chips, PlayerId};
use crate::seqs;
use super::model::HandModel;
use super::{HandMode, Phase, ResultModel};
use vstd::prelude::*;

verus! {

// ---- what the laws speak of ----
/// `t` is the number of the seat of `pid`; none where there is no such player.
pub open spec fn tells_seat(m: HandModel, t: Option<u8>, pid: Option<PlayerId>) -> bool {
    match pid {
        Some(p) => forall|k: int|
            0 <= k < m.seats.len() && (#[trigger] m.seats[k]).player_id == p ==> t == Some(
                m.seats[k].seat,
            ),
        None => t is None,
    }
}

/// Somebody is all in.
pub open spec fn somebody_is_all_in(m: HandModel) -> bool {
    exists|k: int| 0 <= k < m.seats.len() && (#[trigger] m.seats[k]).all_in
}

/// The hand with its first round open and nothing but its opening reported.
pub open spec fn opened(m: HandModel) -> HandModel {
    m.announced().blinds_recorded().holes_dealt().preflop_opened().opening_reported(
        m.opening_posts(),
    )
}

/// The event tells of the forced bet of seat `k`, the hand being `o` after all of them.
pub open spec fn tells_post(
    m: HandModel,
    o: HandModel,
    e: EventModel,
    k: int,
    kind: BlindKind,
    seq: u16,
) -> bool {
    &&& e is ActionApplied
    &&& e->ActionApplied_seat == m.seats[k].seat
    &&& e->ActionApplied_action == PlayerAction::Blind {
        kind,
        amount: Chips(table_laws::posts_at(m, k) as u32),
    }
    &&& e->ActionApplied_contributed == table_laws::posts_at(m, k)
    &&& e->ActionApplied_current_bet == o.current_bet() as u64
    &&& e->ActionApplied_min_raise_to == Some(o.round->Some_0.min_raise_total() as u64)
    &&& tells_seat(o, e->ActionApplied_next_actor_seat, o.current_actor())
    &&& e->ActionApplied_action_seq == seq
}

/// The events from place `k` on tell the two cards of each seat.
pub open spec fn tells_deal(m: HandModel, events: Seq<EventModel>, k: int) -> bool {
    let n = m.seats.len() as int;
    &&& k + n <= events.len()
    &&& forall|i: int|
        k <= i < k + n ==> #[trigger] events[i] == (EventModel::HoleCardsDealt {
            seat: m.seats[i - k].seat,
            cards: seq![m.deck.cards[m.deck.next + i - k], m.deck.cards[m.deck.next + n + i - k]],
        })
}

/// The events of the opening, from place `k` of `events` on: that the hand
/// begins, the forced bets, the pot, and, where the engine deals, the two cards
/// of each seat.
pub open spec fn tells_opening(
    m: HandModel,
    o: HandModel,
    events: Seq<EventModel>,
    k: int,
) -> bool {
    let first = m.actions.len() as int;
    let straddled = table_laws::is_straddled(m);
    let third = table_laws::left_by(m, 3);
    let small = table_laws::small_place(m);
    let big = table_laws::big_place(m);
    let p = if straddled {
        k + 4
    } else {
        k + 3
    };
    &&& p < events.len()
    &&& events[k] == (EventModel::HandStarted {
        dealer_seat: m.seats[table_laws::left_by(m, 0)].seat,
        sb_seat: m.seats[small].seat,
        bb_seat: m.seats[big].seat,
        big_blind: m.big_blind.0 as u64,
        small_blind: m.small_blind.0 as u64,
        straddle_seat: if straddled {
            Some(m.seats[third].seat)
        } else {
            None
        },
        straddle_amount: if straddled {
            Some(m.forced_straddle->Some_0.0 as u64)
        } else {
            None
        },
        deck_seed: m.deck_seed,
    })
    &&& tells_post(m, o, events[k + 1], small, BlindKind::Small, o.actions[first].seq)
    &&& tells_post(m, o, events[k + 2], big, BlindKind::Big, o.actions[first + 1].seq)
    &&& straddled ==> tells_post(
        m,
        o,
        events[k + 3],
        third,
        BlindKind::Straddle,
        o.actions[first + 2].seq,
    )
    &&& events[p] matches EventModel::PotUpdated { pot, side_pots, has_all_in } && {
        &&& pot == table_laws::posts_at(m, small) + table_laws::posts_at(m, big) + if straddled {
            table_laws::posts_at(m, third)
        } else {
            0
        }
        &&& side_pots.len() == 0
        &&& has_all_in == somebody_is_all_in(o)
    }
    &&& m.mode == HandMode::Plaintext ==> tells_deal(m, events, p + 1)
}

// ---- proofs ----
proof fn lemma_tells_seat(m: HandModel, pid: Option<PlayerId>)
    requires
        m.sound(),
    ensures
        tells_seat(m, m.seat_number(pid), pid),
{
    if let Some(p) = pid {
        assert forall|k: int|
            0 <= k < m.seats.len() && (#[trigger] m.seats[k]).player_id == p implies m.seat_number(
            pid,
        ) == Some(m.seats[k].seat) by {
            invariants::lemma_own_seat(m, k);
        }
    }
}

proof fn lemma_anyone_all_in(m: HandModel)
    ensures
        (seqs::count_of(m.seats, model::is_all_in()) > 0) == somebody_is_all_in(m),
{
    if somebody_is_all_in(m) {
        let k = choose|k: int| 0 <= k < m.seats.len() && (#[trigger] m.seats[k]).all_in;
        seqs::lemma_count_positive(m.seats, k, model::is_all_in());
    } else if seqs::count_of(m.seats, model::is_all_in()) > 0 {
        let k = seqs::lemma_count_witness(m.seats, model::is_all_in());
        assert(m.seats[k].all_in);
    }
}

/// Where all cards are known, the events of the deal go seat by seat.
proof fn lemma_deal_events(m: HandModel, k: int)
    requires
        0 <= k <= m.seats.len(),
        forall|j: int| 0 <= j < m.seats.len() ==> (#[trigger] m.seats[j]).hole is Plain,
    ensures
        m.deal_events(k).len() == k,
        forall|j: int|
            0 <= j < k ==> #[trigger] m.deal_events(k)[j] == (EventModel::HoleCardsDealt {
                seat: m.seats[j].seat,
                cards: m.seats[j].hole->Plain_0.cards(),
            }),
    decreases k,
{
    if k > 0 {
        lemma_deal_events(m, k - 1);
        assert(m.seats[k - 1].hole is Plain);
    }
}

/// A street that closes keeps what was reported, unless that ends with a street
/// whose cards came from elsewhere.
proof fn lemma_closing_keeps(m: HandModel, k: int)
    requires
        m.phase is Betting,
        0 <= k < m.events.len(),
        m.mode == HandMode::Plaintext || !(m.events.last() is StreetRevealed),
    ensures
        k < m.street_closed().0.events.len(),
        m.street_closed().0.events[k] == m.events[k],
    decreases 3 - m.street().order(),
{
    let b = m.banked();
    if let Some(s) = model::street_after(b.street()) {
        if b.active_count() > 1 && !(b.mode == HandMode::Plaintext && b.deck.left()
            < game::street_cards(s)) {
            let a = b.board_advanced(s).round_opened(s);
            assert(a.events[k] == m.events[k]);
            let o = a.state_reported();
            assert(o.events[k] == m.events[k]);
            if o.mode == HandMode::Plaintext && o.round->Some_0.done() {
                lemma_closing_keeps(o, k);
            }
        }
    }
}

/// A street that closes reports nothing where cards come from elsewhere or
/// nobody is left to play, and one event where the next street can be bet on.
proof fn lemma_closing_reports(m: HandModel)
    requires
        m.phase is Betting,
    ensures
        ({
            let n = m.street_closed().0;
            &&& m.mode == HandMode::Blind ==> n.events.len() == m.events.len()
            &&& m.active_count() <= 1 || m.street() == Street::River ==> n.events == m.events
        }),
{
    let b = m.banked();
    assert(b.seats == m.seats);
    if let Some(s) = model::street_after(b.street()) {
        if b.active_count() > 1 && m.mode == HandMode::Blind {
            let a = b.board_advanced(s).round_opened(s);
            assert(a.events == m.events);
        }
    }
}

/// The opening is reported event by event.
#[verifier::rlimit(40)]
proof fn lemma_opening_told(m: HandModel)
    requires
        m.wf(),
        m.start_refusal() is None,
        m.can_deal(),
    ensures
        tells_opening(m, opened(m), opened(m).events, m.events.len() as int),
        opened(m).events.take(m.events.len() as int) == m.events,
        opened(m).events.len() == m.events.len() + (if table_laws::is_straddled(m) {
            5int
        } else {
            4int
        }) + (if m.mode == HandMode::Plaintext {
            m.seats.len() as int
        } else {
            0int
        }),
        opened(m).mode == m.mode,
        opened(m).sound(),
        opened(m).phase is Betting,
        !(opened(m).events.last() is StreetRevealed),
{
    let a = m.announced();
    let r = a.blinds_recorded();
    let d = r.holes_dealt();
    let p = d.preflop_opened();
    let o = opened(m);
    let k = m.events.len() as int;
    let n = m.seats.len() as int;
    table_laws::lemma_places(m);
    table_laws::lemma_opening(m);
    assert(d.events == a.events);
    assert(p.events == a.events);
    assert(o.seats == p.seats);
    assert(o.round == p.round);
    assert(p.sound() == o.sound());
    lemma_tells_seat(o, o.current_actor());
    lemma_anyone_all_in(o);
    assert forall|j: int| 0 <= j < n implies (#[trigger] p.seats[j]).seat == m.seats[j].seat
        && p.seats[j].hole == d.seats[j].hole by {}
    invariants::lemma_wrap(m.dealer_idx as int % n, 0, n);
    if m.mode == HandMode::Plaintext {
        assert forall|j: int| 0 <= j < p.seats.len() implies (#[trigger] p.seats[j]).hole is Plain
            && p.seats[j].hole->Plain_0.cards() == seq![
            m.deck.cards[m.deck.next + j],
            m.deck.cards[m.deck.next + n + j],
        ] by {
            assert(p.seats[j].hole == d.seats[j].hole);
        }
        lemma_deal_events(p, n);
    }
    let q = if table_laws::is_straddled(m) {
        k + 4
    } else {
        k + 3
    };
    if m.mode == HandMode::Plaintext {
        let dealt = p.deal_events(n);
        assert forall|i: int| q < i <= q + n implies #[trigger] o.events[i] == dealt[i - q
            - 1] by {}
        assert(tells_deal(m, o.events, q + 1));
        assert(o.events.last() == dealt[n - 1]);
    }
    assert(o.events.take(k) =~= m.events);
}

/// A hand that begins reports its opening event by event: that it begins, with
/// the seats of the button and of the forced bets; each forced bet; the pot;
/// and, where the engine deals, the cards of each seat.
pub proof fn law_the_opening_is_told(m: HandModel)
    requires
        m.wf(),
        m.start_refusal() is None,
        m.can_deal(),
    ensures
        tells_opening(m, opened(m), m.started().0.events, m.events.len() as int),
        m.started().0.events.take(m.events.len() as int) == m.events,
        !opened(m).round->Some_0.done() || m.mode == HandMode::Blind
            ==> m.started().0.events.len() == m.events.len() + (if table_laws::is_straddled(m) {
            5int
        } else {
            4int
        }) + (if m.mode == HandMode::Plaintext {
            m.seats.len() as int
        } else {
            0int
        }),
{
    lemma_opening_told(m);
    let o = opened(m);
    let n = m.started().0;
    let k = m.events.len() as int;
    if o.round->Some_0.done() {
        assert forall|i: int| k <= i < o.events.len() implies i < n.events.len()
            && #[trigger] n.events[i] == o.events[i] by {
            lemma_closing_keeps(o, i);
        }
        lemma_closing_keeps(o, o.events.len() - 1);
        lemma_closing_reports(o);
        assert(n.events.take(k) =~= m.events) by {
            assert forall|i: int| 0 <= i < k implies n.events[i] == m.events[i] by {
                lemma_closing_keeps(o, i);
                assert(o.events.take(k)[i] == o.events[i]);
            }
        }
        if m.mode == HandMode::Plaintext {
            let at = if table_laws::is_straddled(m) {
                k + 5
            } else {
                k + 4
            };
            assert(tells_deal(m, o.events, at));
            assert(tells_deal(m, n.events, at)) by {
                assert forall|i: int| at <= i < at + m.seats.len() implies #[trigger] n.events[i]
                    == o.events[i] by {}
            }
        }
    }
}

/// An action that is taken is reported with its number, its chips and what
/// comes next, and, where it moves chips, the pots after it. What was reported
/// before stays.
pub proof fn law_an_action_is_told(m: HandModel, s: int, action: PlayerAction)
    requires
        m.wf(),
        0 <= s < m.seats.len(),
        m.refusal(m.seats[s].player_id, action) is None,
    ensures
        ({
            let pid = m.seats[s].player_id;
            let v = m.acted(pid, action);
            let n = m.applied(pid, action).0;
            let k = m.events.len() as int;
            let e = n.events[k];
            let a = v.actions.last();
            &&& k < n.events.len()
            &&& n.events.take(k) == m.events
            &&& e is ActionApplied
            &&& e->ActionApplied_seat == m.seats[s].seat
            &&& e->ActionApplied_action == a.action
            &&& e->ActionApplied_contributed == a.amount.0
            &&& e->ActionApplied_action_seq == a.seq
            &&& e->ActionApplied_current_bet == v.current_bet() as u64
            &&& v.open_raise() is None ==> e->ActionApplied_min_raise_to is None
            &&& v.open_raise() matches Some(c) ==> e->ActionApplied_min_raise_to == Some(
                c.0 as u64,
            )
            &&& tells_seat(v, e->ActionApplied_next_actor_seat, v.current_actor())
            &&& a.amount.0 > 0 ==> {
                &&& k + 1 < n.events.len()
                &&& n.events[k + 1] is PotUpdated
                &&& n.events[k + 1]->PotUpdated_pot == v.pot() as u64
                &&& n.events[k + 1]->PotUpdated_side_pots == v.hand_pots()
                &&& n.events[k + 1]->PotUpdated_has_all_in == somebody_is_all_in(v)
            }
            &&& !v.round->Some_0.done() || m.mode == HandMode::Blind || !showdown_laws::two_left(v)
                || m.street() == Street::River ==> n.events.len() == k + if a.amount.0 > 0 {
                2int
            } else {
                1int
            }
        }),
{
    let pid = m.seats[s].player_id;
    let v = m.acted(pid, action);
    let n = m.applied(pid, action).0;
    let k = m.events.len() as int;
    invariants::lemma_own_seat(m, s);
    invariants::lemma_acted(m, pid, action);
    lemma_tells_seat(v, v.current_actor());
    lemma_anyone_all_in(v);
    assert(v.events.take(k) =~= m.events);
    if v.round->Some_0.done() {
        assert forall|i: int| 0 <= i < v.events.len() implies i < n.events.len()
            && #[trigger] n.events[i] == v.events[i] by {
            lemma_closing_keeps(v, i);
        }
        lemma_closing_keeps(v, k);
        lemma_closing_reports(v);
        showdown_laws::lemma_two_left(v);
        assert(n.events.take(k) =~= m.events) by {
            assert forall|i: int| 0 <= i < k implies n.events[i] == m.events[i] by {
                assert(v.events[i] == m.events[i]);
            }
        }
    }
}

/// Where the engine deals, a street that closes with players left to play
/// reports the next one: its cards, the next of the deck, and the betting that
/// it opens with.
pub proof fn law_a_new_street_is_told(m: HandModel)
    requires
        m.sound(),
        m.phase is Betting,
        m.mode == HandMode::Plaintext,
        showdown_laws::two_left(m),
        m.street() != Street::River,
        m.street_closed().1 is Ok,
    ensures
        ({
            let n = m.street_closed().0;
            let k = m.events.len() as int;
            let e = n.events[k];
            let count: int = if m.street() == Street::Preflop {
                3
            } else {
                1
            };
            let told = e->StreetRevealed_street;
            &&& k < n.events.len()
            &&& n.events.take(k) == m.events
            &&& e is StreetRevealed
            &&& table_laws::comes_after(m.street(), told)
            &&& e->StreetRevealed_new_cards == m.deck.cards.subrange(
                m.deck.next,
                m.deck.next + count,
            )
            &&& n.phase == Phase::Betting(told) ==> {
                &&& e->StreetRevealed_current_bet == n.current_bet() as u64
                &&& n.round->Some_0.done() ==> e->StreetRevealed_min_raise_to is None
                &&& !n.round->Some_0.done() ==> e->StreetRevealed_min_raise_to == Some(
                    n.round->Some_0.min_raise_total() as u64,
                )
                &&& tells_seat(n, e->StreetRevealed_next_actor_seat, n.current_actor())
            }
            &&& n.phase == Phase::Betting(told) ==> n.events.len() == k + 1
            &&& n.phase != Phase::Betting(told) ==> e->StreetRevealed_min_raise_to is None
                && e->StreetRevealed_next_actor_seat is None
        }),
{
    showdown_laws::lemma_two_left(m);
    invariants::lemma_banked(m);
    let b = m.banked();
    let next = model::street_after(b.street())->Some_0;
    let a = b.board_advanced(next);
    assert(a.sound());
    invariants::lemma_round_opened(a, next);
    let o = a.round_opened(next).state_reported();
    assert(o.sound());
    let n = m.street_closed().0;
    let k = m.events.len() as int;
    assert(o.events.take(k) =~= m.events);
    lemma_tells_seat(o, o.current_actor());
    if o.round->Some_0.done() {
        assert forall|i: int| 0 <= i < o.events.len() implies i < n.events.len()
            && #[trigger] n.events[i] == o.events[i] by {
            lemma_closing_keeps(o, i);
        }
        lemma_closing_keeps(o, k);
        assert(n.events.take(k) =~= m.events) by {
            assert forall|i: int| 0 <= i < k implies n.events[i] == m.events[i] by {
                assert(o.events[i] == m.events[i]);
            }
        }
        lemma_goes_on(o);
    }
}

/// A street that closes gives way to a later one, or ends the hand.
proof fn lemma_goes_on(m: HandModel)
    requires
        m.phase is Betting,
        m.street_closed().1 is Ok,
    ensures
        m.street_closed().0.phase is Done || m.street_closed().0.phase is Betting
            && m.street_closed().0.street().order() > m.street().order(),
    decreases 3 - m.street().order(),
{
    let b = m.banked();
    if let Some(s) = model::street_after(b.street()) {
        if b.active_count() > 1 {
            let o = b.board_advanced(s).round_opened(s).state_reported();
            if o.mode == HandMode::Plaintext && o.round->Some_0.done() {
                lemma_goes_on(o);
            }
        }
    }
}

/// A hand that is settled reports its outcome and stays as it is.
pub proof fn law_the_outcome_is_told(m: HandModel, result: ResultModel)
    ensures
        ({
            let n = outcome::concluded(m, result);
            &&& n.events.len() == m.events.len() + 1
            &&& n.events.last() == (EventModel::HandFinished { result })
            &&& n.events.drop_last() == m.events
            &&& n == (HandModel { events: n.events, ..m })
        }),
{
    assert(outcome::concluded(m, result).events.drop_last() =~= m.events);
}

} // verus!
