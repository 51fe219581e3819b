//! Which cards are taken from elsewhere, which stay in the deck, and in what
//! order hands are shown.

use crate::card::Card;
use crate::event::EventModel;
use crate::game::invariants;
use crate::game::laws;
use crate::game::model;
use crate::game::outcome;
use crate::game::showdown_laws;
use crate::game::table_laws;
use crate::hand::{BoardModel, HoleCards, Street};
use crate::player::PlayerId;
use crate::seqs;
use super::model::HandModel;
use super::{BlindInjectError, HandMode, HandSeat, HoleSlot, ResultModel};
use vstd::prelude::*;

verus! {

// ---- the order of showing ----
/// How many places seat `k` comes after seat `a`, going round the table.
pub open spec fn places_after(m: HandModel, a: int, k: int) -> int {
    if k >= a {
        k - a
    } else {
        k - a + m.seats.len()
    }
}

/// Showing begins at seat `a`: that of the last player who raised on the river,
/// or, where nobody did, the one left of the button.
pub open spec fn showing_begins_at(m: HandModel, a: int) -> bool {
    &&& 0 <= a < m.seats.len()
    &&& match model::last_raiser(m.facts_of(Street::River)) {
        Some(pid) => m.seats[a].player_id == pid,
        None => showdown_laws::steps_left(m, a) == 0,
    }
}

/// From seat `a` on, player `p` is met before player `q`, and both are in the hand.
pub open spec fn met_before(m: HandModel, a: int, p: PlayerId, q: PlayerId) -> bool {
    exists|k: int, l: int|
        #![trigger m.seats[k], m.seats[l]]
        0 <= k < m.seats.len() && 0 <= l < m.seats.len() && m.seats[k].player_id == p
            && m.seats[l].player_id == q && !m.seats[k].folded && !m.seats[l].folded
            && places_after(m, a, k) < places_after(m, a, l)
}

/// The players left show going round the table, from the last player who raised
/// on the river on, or else from the left of the button.
pub proof fn law_hands_are_shown_going_round(m: HandModel, a: int, d: int, e: int)
    requires
        m.wf(),
        showing_begins_at(m, a),
        0 <= d < e < outcome::show_order(m).len(),
    ensures
        met_before(m, a, outcome::show_order(m)[d], outcome::show_order(m)[e]),
{
    let n = m.seats.len() as int;
    let start = outcome::show_start(m);
    let left = m.left_of_button();
    let raiser = model::last_raiser(m.facts_of(Street::River));
    invariants::lemma_own_seat(m, a);
    lemma_left(m);
    seqs::lemma_first_index(m.seats_from(left), model::in_hand());
    let gap = seqs::first_index(m.seats_from(left), model::in_hand());
    if raiser is None {
        assert(a == left);
        invariants::lemma_wrap(left, gap, n);
    }
    assert(0 <= start < n);
    let row = m.seats_from(start);
    let places = seqs::lemma_pick_told(row, model::in_hand(), model::seat_player());
    let i = places[d];
    let j = places[e];
    assert(i < j);
    invariants::lemma_wrap(start, i, n);
    invariants::lemma_wrap(start, j, n);
    let k = (start + i) % n;
    let l = (start + j) % n;
    assert(row[i] == m.seats[k] && row[j] == m.seats[l]);
    if raiser is None {
        lemma_not_passed(m, k, gap);
        lemma_not_passed(m, l, gap);
        assert(start == if left + gap < n {
            left + gap
        } else if left + gap < 2 * n {
            left + gap - n
        } else {
            0
        });
    }
    assert(places_after(m, a, k) < places_after(m, a, l));
}

proof fn lemma_left(m: HandModel)
    requires
        m.seats.len() > 0,
    ensures
        0 <= m.left_of_button() < m.seats.len(),
        forall|k: int|
            0 <= k < m.seats.len() ==> (#[trigger] showdown_laws::steps_left(m, k) == 0) == (k
                == m.left_of_button()),
{
    let n = m.seats.len() as int;
    invariants::lemma_wrap(m.dealer_idx as int % n, 1, n);
}

/// A seat in the hand is not before the first that is.
proof fn lemma_not_passed(m: HandModel, k: int, gap: int)
    requires
        0 <= k < m.seats.len(),
        !m.seats[k].folded,
        0 <= m.left_of_button() < m.seats.len(),
        gap == seqs::first_index(m.seats_from(m.left_of_button()), model::in_hand()),
    ensures
        0 <= gap <= places_after(m, m.left_of_button(), k),
{
    let n = m.seats.len() as int;
    let left = m.left_of_button();
    let row = m.seats_from(left);
    let s = places_after(m, left, k);
    seqs::lemma_first_index(row, model::in_hand());
    invariants::lemma_wrap(left, s, n);
    assert(row[s] == m.seats[k]);
    if s < gap {
        assert(model::in_hand()(row[s]));
    }
}

// ---- what a result tells of the cards ----
/// The folded seats whose cards are known are told with their cards, and no others.
pub open spec fn tells_folded(m: HandModel, told: Map<u64, HoleCards>) -> bool {
    &&& forall|k: int|
        0 <= k < m.seats.len() ==> {
            let s = #[trigger] m.seats[k];
            let cards = showdown_laws::cards_at(s);
            &&& told.dom().contains(s.player_id.0) == (s.folded && cards is Some)
            &&& s.folded && cards is Some ==> told[s.player_id.0] == cards->Some_0
        }
    &&& forall|id: u64| #[trigger]
        told.dom().contains(id) ==> showdown_laws::sits(m, PlayerId(id))
}

/// The players left are listed, each once, where two are left; else nobody is.
pub open spec fn lists_players_left(m: HandModel, order: Seq<PlayerId>) -> bool {
    if showdown_laws::two_left(m) {
        &&& forall|k: int|
            0 <= k < m.seats.len() ==> order.contains((#[trigger] m.seats[k]).player_id)
                == !m.seats[k].folded
        &&& forall|d: int| 0 <= d < order.len() ==> showdown_laws::sits(m, #[trigger] order[d])
        &&& seqs::distinct(order)
    } else {
        order.len() == 0
    }
}

/// The result tells the order of showing, and, where the engine dealt, the
/// cards that were folded.
pub open spec fn tells_cards(m: HandModel, r: ResultModel) -> bool {
    &&& r.show_order == outcome::show_order(m)
    &&& lists_players_left(m, r.show_order)
    &&& m.mode == HandMode::Plaintext ==> tells_folded(m, r.folded_hole_cards)
    &&& m.mode == HandMode::Blind ==> forall|id: u64|
        !#[trigger] r.folded_hole_cards.dom().contains(id)
}

proof fn lemma_folded_cards(seats: Seq<HandSeat>, n: int, k: int)
    requires
        0 <= n <= seats.len(),
        0 <= k < seats.len(),
        seqs::distinct(model::seat_ids(seats)),
    ensures
        ({
            let told = outcome::folded_cards(seats.take(n));
            let s = seats[k];
            let cards = showdown_laws::cards_at(s);
            &&& told.dom().contains(s.player_id.0) == (k < n && s.folded && cards is Some)
            &&& k < n && s.folded && cards is Some ==> told[s.player_id.0] == cards->Some_0
        }),
    decreases n,
{
    if n > 0 {
        lemma_folded_cards(seats, n - 1, k);
        assert(seats.take(n).drop_last() =~= seats.take(n - 1));
        let ids = model::seat_ids(seats);
        let last = seats[n - 1];
        assert(seats.take(n).last() == last);
        if k != n - 1 {
            assert(ids[k] != ids[n - 1]) by {
                assert(k < n - 1 ==> ids[k] != ids[n - 1]);
                assert(n - 1 < k ==> ids[n - 1] != ids[k]);
            }
            assert(seats[k].player_id.0 != last.player_id.0);
        }
    }
}

proof fn lemma_folded_sit(seats: Seq<HandSeat>, id: u64)
    ensures
        outcome::folded_cards(seats).dom().contains(id) ==> exists|k: int|
            0 <= k < seats.len() && (#[trigger] seats[k]).player_id == PlayerId(id),
    decreases seats.len(),
{
    if seats.len() > 0 {
        lemma_folded_sit(seats.drop_last(), id);
        let told = outcome::folded_cards(seats);
        if told.dom().contains(id) {
            if seats.last().player_id.0 == id {
                assert(seats[seats.len() - 1].player_id == PlayerId(id));
            } else {
                let t = seats.drop_last();
                let k = choose|k: int|
                    0 <= k < t.len() && (#[trigger] t[k]).player_id == PlayerId(id);
                assert(seats[k].player_id == PlayerId(id));
            }
        }
    }
}

proof fn lemma_show_order(m: HandModel)
    requires
        m.wf(),
    ensures
        lists_players_left(m, outcome::show_order(m)),
{
    showdown_laws::lemma_two_left(m);
    let order = outcome::show_order(m);
    if showdown_laws::two_left(m) {
        assert forall|k: int| 0 <= k < m.seats.len() implies order.contains(
            (#[trigger] m.seats[k]).player_id,
        ) == !m.seats[k].folded by {
            laws::law_show_order_lists_the_players_left(m, m.seats[k].player_id);
            invariants::lemma_own_seat(m, k);
        }
        assert forall|d: int| 0 <= d < order.len() implies showdown_laws::sits(
            m,
            #[trigger] order[d],
        ) by {
            laws::law_show_order_lists_the_players_left(m, order[d]);
            assert(order.contains(order[d]));
            invariants::lemma_seat_index(m, order[d]);
            assert(m.seats[m.seat_index(order[d])].player_id == order[d]);
        }
        laws::law_show_order_lists_the_players_left(m, order[0]);
    }
}

/// Every result tells in what order hands are shown; and, where the engine
/// dealt, which cards were folded.
pub proof fn law_results_tell_the_cards(m: HandModel)
    requires
        m.wf(),
    ensures
        tells_cards(m, outcome::dealt_result(m)),
        outcome::blind_result(m) matches Ok(r) ==> tells_cards(m, r),
        outcome::forfeit_result(m) matches Ok(r) ==> tells_cards(m, r),
{
    lemma_show_order(m);
    let told = outcome::folded_cards(m.seats);
    assert(m.seats.take(m.seats.len() as int) =~= m.seats);
    assert forall|k: int| 0 <= k < m.seats.len() implies {
        let s = #[trigger] m.seats[k];
        let cards = showdown_laws::cards_at(s);
        &&& told.dom().contains(s.player_id.0) == (s.folded && cards is Some)
        &&& s.folded && cards is Some ==> told[s.player_id.0] == cards->Some_0
    } by {
        lemma_folded_cards(m.seats, m.seats.len() as int, k);
    }
    assert forall|id: u64| #[trigger] told.dom().contains(id) implies showdown_laws::sits(
        m,
        PlayerId(id),
    ) by {
        lemma_folded_sit(m.seats, id);
    }
    assert(tells_folded(m, told));
}

// ---- cards from elsewhere ----
/// The card lies on the board.
pub open spec fn lies_on(b: BoardModel, c: Card) -> bool {
    ||| b.flop matches Some(f) && f.contains(c)
    ||| b.turn == Some(c)
    ||| b.river == Some(c)
}

/// The card is one of a hand that was shown.
pub open spec fn was_shown(m: HandModel, c: Card) -> bool {
    exists|k: int|
        0 <= k < m.seats.len() && (#[trigger] m.seats[k]).hole is Revealed && (
        m.seats[k].hole->Revealed_0.card1 == c || m.seats[k].hole->Revealed_0.card2 == c)
}

/// The card at place `j` is in sight already, or the same as one before it.
pub open spec fn is_spent(m: HandModel, cards: Seq<Card>, j: int) -> bool {
    ||| lies_on(m.board, cards[j])
    ||| was_shown(m, cards[j])
    ||| exists|i: int| 0 <= i < j && #[trigger] cards[i] == cards[j]
}

/// The first such card is at place `j`.
pub open spec fn first_spent(m: HandModel, cards: Seq<Card>, j: int) -> bool {
    &&& 0 <= j < cards.len()
    &&& is_spent(m, cards, j)
    &&& forall|i: int| 0 <= i < j ==> !#[trigger] is_spent(m, cards, i)
}

/// Cards are refused for the first that cannot come again, and otherwise taken.
pub open spec fn judged(m: HandModel, cards: Seq<Card>, r: Option<BlindInjectError>) -> bool {
    &&& forall|j: int| #[trigger]
        first_spent(m, cards, j) ==> r == Some(
            BlindInjectError::DuplicateCard { card: cards[j] },
        )
    &&& (forall|j: int| 0 <= j < cards.len() ==> !#[trigger] is_spent(m, cards, j)) ==> r is None
}

proof fn lemma_spent(m: HandModel, cards: Seq<Card>, j: int)
    requires
        0 <= j < cards.len(),
    ensures
        is_spent(m, cards, j) == (cards.take(j).contains(cards[j]) || m.knows(cards[j])),
{
    let c = cards[j];
    let b = m.board;
    let all = b.cards();
    let f = match b.flop {
        Some(f) => f,
        None => Seq::<Card>::empty(),
    };
    let t = match b.turn {
        Some(x) => seq![x],
        None => Seq::<Card>::empty(),
    };
    let r = match b.river {
        Some(x) => seq![x],
        None => Seq::<Card>::empty(),
    };
    assert(all =~= f + t + r);
    if lies_on(b, c) {
        if f.contains(c) {
            let i = choose|i: int| 0 <= i < f.len() && f[i] == c;
            assert(all[i] == c);
        } else if b.turn == Some(c) {
            assert(all[f.len() as int] == c);
        } else {
            assert(all[(f.len() + t.len()) as int] == c);
        }
        assert(all.contains(c));
    } else if all.contains(c) {
        let i = choose|i: int| 0 <= i < all.len() && all[i] == c;
        if i < f.len() {
            assert(f[i] == c);
        } else if i < f.len() + t.len() {
            assert(t[i - f.len()] == c);
        } else {
            assert(r[i - f.len() - t.len()] == c);
        }
    }
    if was_shown(m, c) {
        let k = choose|k: int|
            0 <= k < m.seats.len() && (#[trigger] m.seats[k]).hole is Revealed && (
            m.seats[k].hole->Revealed_0.card1 == c || m.seats[k].hole->Revealed_0.card2 == c);
        assert(model::shows_card(m.seats[k], c));
    } else if m.knows(c) && !all.contains(c) {
        let k = choose|k: int|
            0 <= k < m.seats.len() && model::shows_card(#[trigger] m.seats[k], c);
        assert(m.seats[k].hole is Revealed);
    }
    let before = cards.take(j);
    if before.contains(c) {
        let i = choose|i: int| 0 <= i < before.len() && before[i] == c;
        assert(cards[i] == cards[j]);
    }
    if exists|i: int| 0 <= i < j && #[trigger] cards[i] == cards[j] {
        let i = choose|i: int| 0 <= i < j && #[trigger] cards[i] == cards[j];
        assert(before[i] == c);
    }
}

proof fn lemma_judged(m: HandModel, cards: Seq<Card>, i: int)
    requires
        0 <= i <= cards.len(),
        forall|j: int| 0 <= j < i ==> !#[trigger] is_spent(m, cards, j),
    ensures
        judged(
            m,
            cards,
            match m.first_known(cards, i) {
                Some(card) => Some(BlindInjectError::DuplicateCard { card }),
                None => None,
            },
        ),
    decreases cards.len() - i,
{
    if i < cards.len() {
        lemma_spent(m, cards, i);
        if !is_spent(m, cards, i) {
            lemma_judged(m, cards, i + 1);
        } else {
            assert forall|j: int| #[trigger] first_spent(m, cards, j) implies j == i by {
                if j > i {
                    assert(!is_spent(m, cards, i));
                }
            }
        }
    } else {
        assert forall|j: int| #[trigger] first_spent(m, cards, j) implies false by {}
    }
}

/// Which cards are taken for the board: as many as the awaited street has, none
/// of them in sight, none twice. And why others are refused.
pub proof fn law_which_board_cards_are_taken(m: HandModel, cards: Seq<Card>)
    requires
        cards.len() <= usize::MAX,
    ensures
        ({
            let r = m.board_refusal(cards);
            let street = m.pending_board_street->Some_0;
            let count: nat = if street == Street::Flop {
                3
            } else {
                1
            };
            if m.mode != HandMode::Blind {
                r == Some(BlindInjectError::NotBlindMode)
            } else if m.pending_board_street is None || street == Street::Preflop {
                r == Some(BlindInjectError::NoBoardPending)
            } else if cards.len() != count {
                r == Some(
                    BlindInjectError::WrongBoardCount {
                        street,
                        expected: count as usize,
                        got: cards.len() as usize,
                    },
                )
            } else {
                judged(m, cards, r)
            }
        }),
{
    lemma_judged(m, cards, 0);
}

/// Cards that are taken lie on the board of the street that awaited them, and
/// are reported; the other streets, the seats and the deck stay as they are.
pub proof fn law_taken_cards_lie_on_the_board(m: HandModel, cards: Seq<Card>)
    requires
        m.wf(),
        m.board_refusal(cards) is None,
    ensures
        ({
            let n = m.board_taken(cards);
            let street = m.pending_board_street->Some_0;
            &&& n.board.flop == if street == Street::Flop {
                Some(cards)
            } else {
                m.board.flop
            }
            &&& n.board.turn == if street == Street::Turn {
                Some(cards[0])
            } else {
                m.board.turn
            }
            &&& n.board.river == if street == Street::River {
                Some(cards[0])
            } else {
                m.board.river
            }
            &&& n.seats == m.seats
            &&& m.board_shown(cards).events.len() == m.events.len() + 1
            &&& m.board_shown(cards).events.take(m.events.len() as int) == m.events
            &&& m.board_shown(cards).events.last() matches EventModel::StreetRevealed {
                street: told,
                new_cards,
                ..
            } && told == street && new_cards == cards
            &&& m.board_shown(cards).round == m.round
            &&& m.board_shown(cards).phase == m.phase
            &&& m.board_shown(cards).deck == m.deck
            &&& m.board_shown(cards).actions == m.actions
            &&& m.board_shown(cards).pending_board_street is None
        }),
{
    table_laws::law_streets_close_by_themselves(m, cards);
    assert(m.board_shown(cards).events.take(m.events.len() as int) =~= m.events);
    assert(m.board_shown(cards).mode == HandMode::Blind);
}

/// Which hands are taken at the end of a hand dealt elsewhere: that of a player
/// who is left, new cards or the same again. And why others are refused. `k` is
/// where the player sits.
pub proof fn law_which_shown_hands_are_taken(m: HandModel, k: int, h: HoleCards, stranger: PlayerId)
    requires
        m.wf(),
        0 <= k < m.seats.len(),
        forall|j: int|
            0 <= j < m.seats.len() ==> (#[trigger] m.seats[j]).player_id != stranger,
    ensures
        ({
            let s = m.seats[k];
            let pid = s.player_id;
            let r = m.reveal_refusal(pid, h);
            if m.mode != HandMode::Blind {
                r == Some(BlindInjectError::NotBlindMode)
            } else if !(m.phase is Done) {
                r == Some(BlindInjectError::NotAtShowdown)
            } else if s.folded {
                r == Some(BlindInjectError::PlayerFolded(pid))
            } else if s.hole == HoleSlot::Revealed(h) {
                r is None
            } else if s.hole is Revealed {
                r == Some(BlindInjectError::AlreadyRevealed(pid))
            } else {
                judged(m, seq![h.card1, h.card2], r)
            }
        }),
        m.mode == HandMode::Blind && m.phase is Done ==> m.reveal_refusal(stranger, h) == Some(
            BlindInjectError::UnknownPlayer(stranger),
        ),
{
    invariants::lemma_own_seat(m, k);
    invariants::lemma_seat_index(m, stranger);
    assert(h.cards() =~= seq![h.card1, h.card2]);
    lemma_judged(m, h.cards(), 0);
}

/// A hand that is taken is shown at its player's seat, and nothing else changes.
pub proof fn law_shown_hand_lies_open(m: HandModel, k: int, h: HoleCards, j: int)
    requires
        m.wf(),
        0 <= k < m.seats.len(),
        0 <= j < m.seats.len(),
    ensures
        ({
            let n = m.revealed(m.seats[k].player_id, h);
            &&& n.seats.len() == m.seats.len()
            &&& n.seats[j] == if j == k {
                HandSeat { hole: HoleSlot::Revealed(h), ..m.seats[k] }
            } else {
                m.seats[j]
            }
            &&& n == (HandModel { seats: n.seats, ..m })
        }),
{
    invariants::lemma_own_seat(m, k);
}

// ---- cards left over ----
/// How many cards lie on the board.
pub open spec fn board_size(b: BoardModel) -> int {
    (if b.flop is Some {
        3int
    } else {
        0
    }) + (if b.turn is Some {
        1int
    } else {
        0
    }) + (if b.river is Some {
        1int
    } else {
        0
    })
}

/// What is missing of the board of a hand that is over are the next cards of
/// the deck, as many as bring the board to five, or all that are left. Nothing
/// is missing while the hand goes on, and where the engine does not deal.
pub proof fn law_missing_cards_are_the_next_of_the_deck(m: HandModel)
    requires
        m.wf(),
        m.board.wf(),
    ensures
        ({
            let missing = m.missing_board();
            let left = m.deck.cards.len() - m.deck.next;
            let due = 5 - board_size(m.board);
            &&& !(m.phase is Done) || m.mode != HandMode::Plaintext ==> missing.len() == 0
            &&& m.phase is Done && m.mode == HandMode::Plaintext ==> missing.len() == if due
                < left {
                due
            } else {
                left
            }
            &&& forall|i: int|
                0 <= i < missing.len() ==> #[trigger] missing[i] == m.deck.cards[m.deck.next + i]
        }),
{
    assert(m.board.cards().len() == board_size(m.board));
}

/// Cards given to a player leave the deck; the others keep their order, and are
/// dealt from the first on. Nothing changes for a stranger.
pub proof fn law_given_cards_leave_the_deck(m: HandModel, k: int, h: HoleCards, stranger: PlayerId)
    requires
        m.wf(),
        0 <= k < m.seats.len(),
        forall|j: int|
            0 <= j < m.seats.len() ==> (#[trigger] m.seats[j]).player_id != stranger,
    ensures
        ({
            let n = m.overridden(m.seats[k].player_id, h);
            &&& seqs::is_told(
                n.deck.cards,
                m.deck.cards,
                |c: Card| c != h.card1 && c != h.card2,
                |c: Card| c,
            )
            &&& n.deck.next == 0
            &&& n.seats.len() == m.seats.len()
            &&& forall|j: int|
                0 <= j < m.seats.len() ==> #[trigger] n.seats[j] == if j == k {
                    HandSeat { hole: HoleSlot::Plain(h), ..m.seats[k] }
                } else {
                    m.seats[j]
                }
            &&& n == (HandModel { seats: n.seats, deck: n.deck, ..m })
        }),
        m.overridden(stranger, h) == m,
{
    invariants::lemma_own_seat(m, k);
    invariants::lemma_seat_index(m, stranger);
    let same = |c: Card| c;
    let keep = |c: Card| c != h.card1 && c != h.card2;
    let places = seqs::lemma_pick_told(m.deck.cards, model::neither_of(h), same);
    let n = m.overridden(m.seats[k].player_id, h);
    assert(seqs::told_at(n.deck.cards, m.deck.cards, keep, same, places));
}

} // verus!
