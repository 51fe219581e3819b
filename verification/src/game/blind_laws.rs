//! What the engine knows of the cards of a hand that is dealt elsewhere.

use crate::action::PlayerAction;
use crate::card::Card;
use crate::deck::DeckModel;
use crate::game::invariants;
use crate::game::laws;
use crate::game::model;
use crate::game::outcome;
use crate::game::start;
use crate::hand::{BoardModel, HoleCards, Street};
use crate::player::{Chips, PlayerId};
use crate::rng::DeckSeed;
use crate::seqs;
use super::model::HandModel;
use super::{HandMode, HoleSlot, ResultModel};
use vstd::prelude::*;

verus! {

/// Of a hand dealt elsewhere the engine knows the hole cards that were shown
/// to it and no others, and no card that it knows is in two places: not twice
/// on the board, not twice in a hand, not in two hands, not in a hand and on
/// the board.
pub open spec fn veiled(m: HandModel) -> bool {
    &&& m.mode == HandMode::Blind
    &&& forall|k: int|
        0 <= k < m.seats.len() ==> (#[trigger] m.seats[k]).hole is Opaque
            || m.seats[k].hole is Revealed
    &&& seqs::distinct(m.board.cards())
    &&& forall|k: int|
        0 <= k < m.seats.len() && (#[trigger] m.seats[k]).hole is Revealed
            ==> m.seats[k].hole->Revealed_0.card1 != m.seats[k].hole->Revealed_0.card2
    &&& forall|k: int, c: Card|
        0 <= k < m.seats.len() && #[trigger] model::shows_card(m.seats[k], c)
            ==> !m.board.cards().contains(c)
    &&& forall|i: int, j: int, c: Card|
        #![trigger model::shows_card(m.seats[i], c), model::shows_card(m.seats[j], c)]
        0 <= i < m.seats.len() && 0 <= j < m.seats.len() && model::shows_card(m.seats[i], c)
            && model::shows_card(m.seats[j], c) ==> i == j
}

/// A call that changes a hand dealt elsewhere.
pub enum BlindCall {
    /// A straddle is forced.
    Straddle(Chips),
    /// The hand begins.
    Start,
    /// A player takes an action.
    Act(PlayerId, PlayerAction),
    /// The cards of a street are put on the board.
    Board(Seq<Card>),
    /// A player shows two cards.
    Reveal(PlayerId, HoleCards),
    /// The events are taken.
    Drain,
    /// The hand is settled.
    Finish,
    /// The hand is settled with forfeits.
    FinishWithForfeits,
    /// The hand is broken off because some players withhold the board.
    BreakOff(Seq<PlayerId>),
}

/// The hand after a call, accepted or not.
pub open spec fn after_call(m: HandModel, call: BlindCall) -> HandModel {
    match call {
        BlindCall::Straddle(amount) => HandModel {
            forced_straddle: if amount.0 > 0 {
                Some(amount)
            } else {
                None
            },
            ..m
        },
        BlindCall::Start => m.started().0,
        BlindCall::Act(pid, action) => m.applied(pid, action).0,
        BlindCall::Board(cards) => if m.board_refusal(cards) is None {
            m.board_taken(cards)
        } else {
            m
        },
        BlindCall::Reveal(pid, h) => if m.reveal_refusal(pid, h) is None {
            m.revealed(pid, h)
        } else {
            m
        },
        BlindCall::Drain => HandModel { events: Seq::empty(), ..m },
        BlindCall::Finish => match outcome::blind_result(m) {
            Ok(r) => outcome::concluded(m, r),
            Err(_) => m,
        },
        BlindCall::FinishWithForfeits => match outcome::forfeit_result(m) {
            Ok(r) => outcome::concluded(m, r),
            Err(_) => m,
        },
        BlindCall::BreakOff(out) => {
            let n = outcome::broken_off(m, out);
            if n.active_count() == 0 {
                n
            } else {
                outcome::concluded(n, outcome::broken_off_result(n, m.hand_pots()))
            }
        },
    }
}

/// The hand after some calls, in order.
pub open spec fn after_calls(m: HandModel, calls: Seq<BlindCall>) -> HandModel
    decreases calls.len(),
{
    if calls.len() == 0 {
        m
    } else {
        after_call(after_calls(m, calls.drop_last()), calls.last())
    }
}

/// Among the calls on `m` is one by which `pid` showed the cards `h`, and it was accepted.
pub open spec fn was_shown(
    m: HandModel,
    calls: Seq<BlindCall>,
    pid: PlayerId,
    h: HoleCards,
) -> bool {
    exists|j: int|
        0 <= j < calls.len() && #[trigger] calls[j] == BlindCall::Reveal(pid, h) && after_calls(
            m,
            calls.take(j),
        ).reveal_refusal(pid, h) is None
}

/// The cards of a player are unknown, or were shown by the calls on `m`.
pub open spec fn unknown_or_shown(
    m: HandModel,
    calls: Seq<BlindCall>,
    pid: PlayerId,
    hole: HoleSlot,
) -> bool {
    match hole {
        HoleSlot::Opaque => true,
        HoleSlot::Revealed(h) => was_shown(m, calls, pid, h),
        _ => false,
    }
}

/// The same players sit in the same places, with the same chips brought along.
pub open spec fn same_table(m: HandModel, n: HandModel) -> bool {
    &&& n.seats.len() == m.seats.len()
    &&& forall|k: int|
        0 <= k < m.seats.len() ==> (#[trigger] n.seats[k]).player_id == m.seats[k].player_id
            && n.seats[k].starting_stack == m.seats[k].starting_stack && n.seats[k].seat
            == m.seats[k].seat
}

/// No cards came to be known, were hidden or were changed.
pub open spec fn same_cards(m: HandModel, n: HandModel) -> bool {
    &&& n.board == m.board
    &&& forall|k: int| 0 <= k < m.seats.len() ==> (#[trigger] n.seats[k]).hole == m.seats[k].hole
}

proof fn lemma_same_cards(m: HandModel, n: HandModel)
    requires
        veiled(m),
        n.mode == m.mode,
        same_table(m, n),
        same_cards(m, n),
    ensures
        veiled(n),
{
    assert forall|k: int| 0 <= k < n.seats.len() implies (#[trigger] n.seats[k]).hole is Opaque
        || n.seats[k].hole is Revealed by {
        assert(n.seats[k].hole == m.seats[k].hole);
    }
    assert forall|k: int, c: Card|
        0 <= k < n.seats.len() && #[trigger] model::shows_card(
            n.seats[k],
            c,
        ) implies !n.board.cards().contains(c) by {
        assert(n.seats[k].hole == m.seats[k].hole);
        assert(model::shows_card(m.seats[k], c));
    }
    assert forall|i: int, j: int, c: Card|
        #![trigger model::shows_card(n.seats[i], c), model::shows_card(n.seats[j], c)]
        0 <= i < n.seats.len() && 0 <= j < n.seats.len() && model::shows_card(n.seats[i], c)
            && model::shows_card(n.seats[j], c) implies i == j by {
        assert(n.seats[i].hole == m.seats[i].hole);
        assert(n.seats[j].hole == m.seats[j].hole);
        assert(model::shows_card(m.seats[i], c) && model::shows_card(m.seats[j], c));
    }
    assert forall|k: int| 0 <= k < n.seats.len() && (#[trigger] n.seats[k]).hole is Revealed
        implies n.seats[k].hole->Revealed_0.card1 != n.seats[k].hole->Revealed_0.card2 by {
        assert(n.seats[k].hole == m.seats[k].hole);
    }
}

/// Closing a street of a hand dealt elsewhere shows no cards.
proof fn lemma_closing_shows_nothing(m: HandModel)
    requires
        m.mode == HandMode::Blind,
        m.phase is Betting,
    ensures
        m.street_closed().0.mode == m.mode,
        same_table(m, m.street_closed().0),
        same_cards(m, m.street_closed().0),
{
    invariants::lemma_street_closed(m);
}

/// Beginning a hand dealt elsewhere shows no cards.
proof fn lemma_start_shows_nothing(m: HandModel)
    requires
        m.wf(),
        m.mode == HandMode::Blind,
    ensures
        m.started().0.mode == m.mode,
        same_table(m, m.started().0),
        same_cards(m, m.started().0),
{
    if m.start_refusal() is None {
        start::lemma_recorded(m);
        start::lemma_dealt(m);
        let d = m.announced().blinds_recorded().holes_dealt();
        assert(d.seats == m.seats && d.board == m.board);
        let o = d.preflop_opened().opening_reported(m.opening_posts());
        assert(o.board == m.board);
        assert forall|k: int| 0 <= k < m.seats.len() implies (#[trigger] o.seats[k]).hole
            == m.seats[k].hole && o.seats[k].player_id == m.seats[k].player_id
            && o.seats[k].starting_stack == m.seats[k].starting_stack && o.seats[k].seat
            == m.seats[k].seat by {}
        if o.round->Some_0.done() {
            lemma_closing_shows_nothing(o);
        }
    }
}

/// An action in a hand dealt elsewhere shows no cards.
proof fn lemma_action_shows_nothing(m: HandModel, pid: PlayerId, action: PlayerAction)
    requires
        m.wf(),
        m.mode == HandMode::Blind,
    ensures
        m.applied(pid, action).0.mode == m.mode,
        same_table(m, m.applied(pid, action).0),
        same_cards(m, m.applied(pid, action).0),
{
    if m.refusal(pid, action) is None {
        invariants::lemma_acted(m, pid, action);
        let n = m.acted(pid, action);
        if n.round->Some_0.done() {
            lemma_closing_shows_nothing(n);
        }
    }
}

/// No card is in both `a` and `b`.
pub open spec fn apart(a: Seq<Card>, b: Seq<Card>) -> bool {
    forall|c: Card| !(#[trigger] a.contains(c) && b.contains(c))
}

/// What is in two sequences put together, and when all of it differs.
proof fn lemma_joined(a: Seq<Card>, b: Seq<Card>)
    ensures
        forall|c: Card| #[trigger] (a + b).contains(c) == (a.contains(c) || b.contains(c)),
        seqs::distinct(a + b) == (seqs::distinct(a) && seqs::distinct(b) && apart(a, b)),
{
    let ab = a + b;
    assert forall|c: Card| #[trigger] ab.contains(c) == (a.contains(c) || b.contains(c)) by {
        if a.contains(c) {
            let i = choose|i: int| 0 <= i < a.len() && a[i] == c;
            assert(ab[i] == c);
        }
        if b.contains(c) {
            let i = choose|i: int| 0 <= i < b.len() && b[i] == c;
            assert(ab[a.len() + i] == c);
        }
    }
    if seqs::distinct(ab) {
        assert forall|i: int, j: int| #![trigger a[i], a[j]] 0 <= i < j < a.len() implies a[i]
            != a[j] by {
            assert(ab[i] != ab[j]);
        }
        assert forall|i: int, j: int| #![trigger b[i], b[j]] 0 <= i < j < b.len() implies b[i]
            != b[j] by {
            assert(ab[a.len() + i] != ab[a.len() + j]);
        }
        assert forall|c: Card| !(#[trigger] a.contains(c) && b.contains(c)) by {
            if a.contains(c) && b.contains(c) {
                let i = choose|i: int| 0 <= i < a.len() && a[i] == c;
                let j = choose|j: int| 0 <= j < b.len() && b[j] == c;
                assert(ab[i] != ab[a.len() + j]);
            }
        }
    }
    if seqs::distinct(a) && seqs::distinct(b) && apart(a, b) {
        assert forall|i: int, j: int| #![trigger ab[i], ab[j]] 0 <= i < j < ab.len(
        ) implies ab[i] != ab[j] by {
            if j < a.len() {
                assert(a[i] != a[j]);
            } else if i >= a.len() {
                assert(b[i - a.len()] != b[j - a.len()]);
            } else {
                assert(a.contains(a[i]) && b.contains(b[j - a.len()]));
            }
        }
    }
}

/// The cards on a board with new cards are those and cards that were on it.
proof fn lemma_new_board(board: BoardModel, street: Street, cards: Seq<Card>)
    requires
        seqs::distinct(board.cards()),
        seqs::distinct(cards),
        street != Street::Preflop,
        cards.len() > 0,
        apart(board.cards(), cards),
    ensures
        seqs::distinct(model::board_with(board, street, cards).cards()),
        forall|c: Card|
            #[trigger] model::board_with(board, street, cards).cards().contains(c)
                ==> board.cards().contains(c) || cards.contains(c),
{
    let f = match board.flop {
        Some(f) => f,
        None => Seq::<Card>::empty(),
    };
    let t = match board.turn {
        Some(c) => seq![c],
        None => Seq::<Card>::empty(),
    };
    let r = match board.river {
        Some(c) => seq![c],
        None => Seq::<Card>::empty(),
    };
    lemma_joined(f, t);
    lemma_joined(f + t, r);
    let one = seq![cards[0]];
    assert(one[0] == cards[0]);
    assert forall|c: Card| #[trigger] one.contains(c) implies cards.contains(c) by {
        assert(c == cards[0]);
    }
    let all = f + t + r;
    assert(all == board.cards());
    match street {
        Street::Flop => {
            lemma_joined(cards, t);
            lemma_joined(cards + t, r);
            assert forall|c: Card| !(#[trigger] cards.contains(c) && t.contains(c)) by {
                assert((f + t).contains(c) == (f.contains(c) || t.contains(c)));
                assert(all.contains(c) == ((f + t).contains(c) || r.contains(c)));
            }
            assert forall|c: Card| !(#[trigger] (cards + t).contains(c) && r.contains(c)) by {
                assert((f + t).contains(c) == (f.contains(c) || t.contains(c)));
                assert(all.contains(c) == ((f + t).contains(c) || r.contains(c)));
            }
        },
        Street::Turn => {
            lemma_joined(f, one);
            lemma_joined(f + one, r);
            assert forall|c: Card| !(#[trigger] f.contains(c) && one.contains(c)) by {
                assert((f + t).contains(c) == (f.contains(c) || t.contains(c)));
                assert(all.contains(c) == ((f + t).contains(c) || r.contains(c)));
            }
            assert forall|c: Card| !(#[trigger] (f + one).contains(c) && r.contains(c)) by {
                assert((f + t).contains(c) == (f.contains(c) || t.contains(c)));
                assert(all.contains(c) == ((f + t).contains(c) || r.contains(c)));
            }
        },
        _ => {
            lemma_joined(f + t, one);
            assert forall|c: Card| !(#[trigger] (f + t).contains(c) && one.contains(c)) by {
                assert(all.contains(c) == ((f + t).contains(c) || r.contains(c)));
            }
        },
    }
    let new = model::board_with(board, street, cards).cards();
    assert forall|c: Card| #[trigger] new.contains(c) implies all.contains(c) || cards.contains(
        c,
    ) by {
        assert((f + t).contains(c) == (f.contains(c) || t.contains(c)));
        assert(all.contains(c) == ((f + t).contains(c) || r.contains(c)));
    }
}

/// Cards that are accepted for the board leave a hand dealt elsewhere in order.
proof fn lemma_board_veiled(m: HandModel, cards: Seq<Card>)
    requires
        m.wf(),
        veiled(m),
        m.board_refusal(cards) is None,
    ensures
        veiled(m.board_taken(cards)),
        m.board_taken(cards).wf(),
        same_table(m, m.board_taken(cards)),
        forall|k: int|
            0 <= k < m.seats.len() ==> (#[trigger] m.board_taken(cards).seats[k]).hole
                == m.seats[k].hole,
{
    let s = m.board_shown(cards);
    laws::law_taken_cards_are_new(m, cards);
    assert forall|c: Card| !(#[trigger] m.board.cards().contains(c) && cards.contains(c)) by {
        if cards.contains(c) {
            let i = choose|i: int| 0 <= i < cards.len() && cards[i] == c;
            assert(!m.knows(cards[i]));
        }
    }
    lemma_new_board(m.board, m.pending_board_street->Some_0, cards);
    assert(s.seats == m.seats);
    assert forall|k: int, c: Card|
        0 <= k < s.seats.len() && #[trigger] model::shows_card(
            s.seats[k],
            c,
        ) implies !s.board.cards().contains(c) by {
        if s.board.cards().contains(c) {
            assert(!m.board.cards().contains(c));
            assert(cards.contains(c));
            let i = choose|i: int| 0 <= i < cards.len() && cards[i] == c;
            assert(!m.knows(cards[i]));
        }
    }
    assert(veiled(s));
    assert(s.wf());
    if let Some(r) = s.round {
        if r.done() {
            lemma_closing_shows_nothing(s);
            lemma_same_cards(s, s.street_closed().0);
            invariants::lemma_street_closed_sound(s);
        }
    }
}

/// Cards that a player shows and that are accepted leave a hand dealt elsewhere in order.
proof fn lemma_reveal_veiled(m: HandModel, pid: PlayerId, h: HoleCards)
    requires
        m.wf(),
        veiled(m),
        m.reveal_refusal(pid, h) is None,
    ensures
        veiled(m.revealed(pid, h)),
        m.revealed(pid, h).wf(),
        same_table(m, m.revealed(pid, h)),
        forall|k: int|
            0 <= k < m.seats.len() ==> (#[trigger] m.revealed(pid, h).seats[k]).hole == if (
            m.seats[k].player_id == pid) {
                HoleSlot::Revealed(h)
            } else {
                m.seats[k].hole
            },
{
    let n = m.revealed(pid, h);
    let p = m.seat_index(pid);
    invariants::lemma_seat_index(m, pid);
    invariants::lemma_revealed(m, pid, h);
    let ids = model::seat_ids(m.seats);
    assert(ids[p] == pid);
    assert forall|k: int| 0 <= k < m.seats.len() implies (#[trigger] n.seats[k]).hole == if (
    m.seats[k].player_id == pid) {
        HoleSlot::Revealed(h)
    } else {
        m.seats[k].hole
    } by {
        if k != p {
            assert(ids[k] != ids[p]);
        }
    }
    assert(n.committed() == m.committed()) by {
        seqs::lemma_sum_same(n.seats, m.seats, model::put_in(), model::put_in());
    }
    assert(n.wf());
    if m.seats[p].hole == HoleSlot::Revealed(h) {
        assert(n.seats =~= m.seats);
        assert(n =~= m);
    } else {
        let two = h.cards();
        laws::law_taken_cards_are_new(m, two);
        assert(two[0] == h.card1 && two[1] == h.card2);
        assert(!m.knows(two[0]) && !m.knows(two[1]));
        assert forall|k: int, c: Card|
            0 <= k < n.seats.len() && #[trigger] model::shows_card(
                n.seats[k],
                c,
            ) implies !n.board.cards().contains(c) by {
            if k != p {
                assert(model::shows_card(m.seats[k], c));
            }
        }
        assert forall|i: int, j: int, c: Card|
            #![trigger model::shows_card(n.seats[i], c), model::shows_card(n.seats[j], c)]
            0 <= i < n.seats.len() && 0 <= j < n.seats.len() && model::shows_card(n.seats[i], c)
                && model::shows_card(n.seats[j], c) implies i == j by {
            if i != p {
                assert(model::shows_card(m.seats[i], c));
            }
            if j != p {
                assert(model::shows_card(m.seats[j], c));
            }
        }
        assert(veiled(n));
    }
}

/// Breaking a hand off shows no cards.
proof fn lemma_breaking_off_shows_nothing(m: HandModel, out: Seq<PlayerId>)
    ensures
        outcome::broken_off(m, out).mode == m.mode,
        same_table(m, outcome::broken_off(m, out)),
        same_cards(m, outcome::broken_off(m, out)),
{
    assert(m.banked().seats == m.seats && m.banked().board == m.board);
}

/// A call that led from `m` to `n` left the hand in order, and showed at most
/// the cards of the player who asked for that.
pub open spec fn kept_veiled(m: HandModel, call: BlindCall, n: HandModel) -> bool {
    &&& n.wf()
    &&& veiled(n)
    &&& same_table(m, n)
    &&& forall|k: int|
        0 <= k < m.seats.len() ==> {
            let h = (#[trigger] n.seats[k]).hole;
            h == m.seats[k].hole || (h is Revealed && call == BlindCall::Reveal(
                m.seats[k].player_id,
                h->Revealed_0,
            ) && m.reveal_refusal(m.seats[k].player_id, h->Revealed_0) is None)
        }
}

proof fn lemma_quiet_call(m: HandModel, call: BlindCall, n: HandModel)
    requires
        veiled(m),
        n.wf(),
        n.mode == m.mode,
        same_table(m, n),
        same_cards(m, n),
    ensures
        kept_veiled(m, call, n),
{
    lemma_same_cards(m, n);
}

/// Whatever is called, the engine learns no hole cards of a hand dealt
/// elsewhere but those of a player who shows them, and no card comes to be in
/// two places.
pub proof fn law_calls_keep_hand_veiled(m: HandModel, call: BlindCall)
    requires
        m.wf(),
        veiled(m),
    ensures
        kept_veiled(m, call, after_call(m, call)),
{
    let n = after_call(m, call);
    match call {
        BlindCall::Start => {
            lemma_start_shows_nothing(m);
            invariants::lemma_started(m);
            lemma_quiet_call(m, call, n);
        },
        BlindCall::Act(pid, action) => {
            lemma_action_shows_nothing(m, pid, action);
            invariants::lemma_applied(m, pid, action);
            lemma_quiet_call(m, call, n);
        },
        BlindCall::Board(cards) => {
            lemma_board_call(m, cards);
        },
        BlindCall::Reveal(pid, h) => {
            lemma_reveal_call(m, pid, h);
        },
        BlindCall::BreakOff(out) => {
            lemma_break_off_call(m, out);
        },
        _ => {
            lemma_small_call(m, call);
        },
    }
}

proof fn lemma_board_call(m: HandModel, cards: Seq<Card>)
    requires
        m.wf(),
        veiled(m),
    ensures
        kept_veiled(m, BlindCall::Board(cards), after_call(m, BlindCall::Board(cards))),
{
    if m.board_refusal(cards) is None {
        lemma_board_veiled(m, cards);
    }
}

proof fn lemma_reveal_call(m: HandModel, pid: PlayerId, h: HoleCards)
    requires
        m.wf(),
        veiled(m),
    ensures
        kept_veiled(m, BlindCall::Reveal(pid, h), after_call(m, BlindCall::Reveal(pid, h))),
{
    if m.reveal_refusal(pid, h) is None {
        lemma_reveal_veiled(m, pid, h);
    }
}

proof fn lemma_break_off_call(m: HandModel, out: Seq<PlayerId>)
    requires
        m.wf(),
        veiled(m),
    ensures
        kept_veiled(m, BlindCall::BreakOff(out), after_call(m, BlindCall::BreakOff(out))),
{
    let n = outcome::broken_off(m, out);
    outcome::lemma_broken_off(m, out);
    lemma_breaking_off_shows_nothing(m, out);
    let r = outcome::broken_off_result(n, m.hand_pots());
    lemma_concluded(n, r);
    lemma_quiet_call(m, BlindCall::BreakOff(out), n);
    lemma_quiet_call(m, BlindCall::BreakOff(out), outcome::concluded(n, r));
}

proof fn lemma_concluded(m: HandModel, r: ResultModel)
    requires
        m.wf(),
    ensures
        outcome::concluded(m, r).wf(),
{
}

proof fn lemma_small_call(m: HandModel, call: BlindCall)
    requires
        m.wf(),
        veiled(m),
        call is Straddle || call is Drain || call is Finish || call is FinishWithForfeits,
    ensures
        kept_veiled(m, call, after_call(m, call)),
{
    let n = after_call(m, call);
    assert(n.wf());
    lemma_quiet_call(m, call, n);
}

/// From a hand of which no hole cards are known, whatever is called and in
/// whatever order: the engine knows a player's cards only where that player
/// showed just these and they were accepted; all the cards that it knows
/// differ; the same players sit in the same places; and no player has more
/// chips than were brought along.
pub proof fn law_known_cards_were_shown(m: HandModel, calls: Seq<BlindCall>)
    requires
        m.wf(),
        veiled(m),
        forall|k: int| 0 <= k < m.seats.len() ==> (#[trigger] m.seats[k]).hole is Opaque,
    ensures
        after_calls(m, calls).wf(),
        veiled(after_calls(m, calls)),
        same_table(m, after_calls(m, calls)),
        forall|k: int|
            0 <= k < m.seats.len() ==> {
                let s = #[trigger] after_calls(m, calls).seats[k];
                &&& s.stack.0 <= s.starting_stack.0
                &&& unknown_or_shown(m, calls, s.player_id, s.hole)
            },
    decreases calls.len(),
{
    if calls.len() > 0 {
        let before = calls.drop_last();
        let call = calls.last();
        law_known_cards_were_shown(m, before);
        let b = after_calls(m, before);
        let n = after_calls(m, calls);
        law_calls_keep_hand_veiled(b, call);
        assert(same_table(m, n)) by {
            assert forall|k: int| 0 <= k < m.seats.len() implies (#[trigger] n.seats[k]).player_id
                == m.seats[k].player_id && n.seats[k].starting_stack == m.seats[k].starting_stack
                && n.seats[k].seat == m.seats[k].seat by {
                assert(b.seats[k].player_id == m.seats[k].player_id);
            }
        }
        assert forall|k: int| 0 <= k < m.seats.len() implies {
            let s = #[trigger] n.seats[k];
            &&& s.stack.0 <= s.starting_stack.0
            &&& unknown_or_shown(m, calls, s.player_id, s.hole)
        } by {
            assert(b.seats[k].player_id == n.seats[k].player_id);
            lemma_shown_so_far(m, calls, n.seats[k].player_id, b.seats[k].hole, n.seats[k].hole);
        }
    }
}

/// What one more call adds to the cards that were shown.
proof fn lemma_shown_so_far(
    m: HandModel,
    calls: Seq<BlindCall>,
    pid: PlayerId,
    was: HoleSlot,
    is: HoleSlot,
)
    requires
        calls.len() > 0,
        unknown_or_shown(m, calls.drop_last(), pid, was),
        is == was || (is is Revealed && calls.last() == BlindCall::Reveal(pid, is->Revealed_0)
            && after_calls(m, calls.drop_last()).reveal_refusal(pid, is->Revealed_0) is None),
    ensures
        unknown_or_shown(m, calls, pid, is),
{
    let before = calls.drop_last();
    if let HoleSlot::Revealed(h) = is {
        if is == was {
            let j = choose|j: int|
                0 <= j < before.len() && #[trigger] before[j] == BlindCall::Reveal(pid, h)
                    && after_calls(m, before.take(j)).reveal_refusal(pid, h) is None;
            assert(before.take(j) =~= calls.take(j));
            assert(calls[j] == BlindCall::Reveal(pid, h));
        } else {
            let j = calls.len() - 1;
            assert(calls.take(j) =~= before);
            assert(calls[j] == BlindCall::Reveal(pid, h));
        }
    }
}

/// A fresh hand whose cards are dealt elsewhere is in order, and no cards of it are known.
pub proof fn law_fresh_blind_hand_is_veiled(
    players: Seq<(PlayerId, Chips, u8)>,
    dealer_idx: usize,
    big_blind: Chips,
    small_blind: Chips,
    deck: DeckModel,
    deck_seed: DeckSeed,
)
    requires
        start::can_sit(players),
        deck.wf(),
    ensures
        ({
            let m = start::fresh_hand(
                players,
                dealer_idx,
                big_blind,
                small_blind,
                HandMode::Blind,
                deck,
                deck_seed,
            );
            &&& m.wf()
            &&& veiled(m)
            &&& m.board.cards().len() == 0
            &&& forall|k: int| 0 <= k < m.seats.len() ==> (#[trigger] m.seats[k]).hole is Opaque
        }),
{
    start::lemma_fresh_hand(
        players,
        dealer_idx,
        big_blind,
        small_blind,
        HandMode::Blind,
        deck,
        deck_seed,
    );
}

} // verus!
