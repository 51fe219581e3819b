//! Who posts what, whose turn it is, and how a hand goes from street to street,
//! told by the places at the table.

use crate::action::{ActionError, ActionRecord, BlindKind, PlayerAction};
use crate::card::Card;
use crate::deck::DeckModel;
use crate::game::account_laws;
use crate::game::invariants;
use crate::game::model;
use crate::game::showdown_laws;
use crate::game::start;
use crate::game;
use crate::hand::{HoleCards, Street};
use crate::player::{Chips, PlayerId};
use crate::rng::DeckSeed;
use crate::round::{PlayerState, RoundModel};
use crate::round;
use crate::seqs;
use super::model::HandModel;
use super::{HandMode, HandSeat, HoleSlot, Phase};
use vstd::prelude::*;

verus! {

// ---- the places ----
/// The seat `s` places to the left of the button.
pub open spec fn left_by(m: HandModel, s: int) -> int {
    let n = m.seats.len() as int;
    (m.dealer_idx as int % n + s) % n
}

/// The seat of the small blind: left of the button, or on it heads-up.
pub open spec fn small_place(m: HandModel) -> int {
    if m.seats.len() == 2 {
        left_by(m, 0)
    } else {
        left_by(m, 1)
    }
}

/// The seat of the big blind: the next after the small blind.
pub open spec fn big_place(m: HandModel) -> int {
    if m.seats.len() == 2 {
        left_by(m, 1)
    } else {
        left_by(m, 2)
    }
}

/// Whether somebody must straddle.
pub open spec fn is_straddled(m: HandModel) -> bool {
    m.forced_straddle is Some && m.seats.len() >= 3
}

/// What seat `k` is asked to post: the straddle is asked of the seat after the big blind.
pub open spec fn asked(m: HandModel, k: int) -> int {
    if k == small_place(m) {
        m.small_blind.0 as int
    } else if k == big_place(m) {
        m.big_blind.0 as int
    } else if is_straddled(m) && k == left_by(m, 3) {
        m.forced_straddle->Some_0.0 as int
    } else {
        0
    }
}

/// What seat `k` posts: what it is asked, or all it has.
pub open spec fn posts_at(m: HandModel, k: int) -> int {
    if asked(m, k) < m.seats[k].stack.0 {
        asked(m, k)
    } else {
        m.seats[k].stack.0 as int
    }
}

/// Who is asked first before the flop: the seat after the last forced bet.
pub open spec fn opens_at(m: HandModel) -> int {
    if m.seats.len() == 2 {
        left_by(m, 2)
    } else if is_straddled(m) {
        left_by(m, 4)
    } else {
        left_by(m, 3)
    }
}

/// The bet that is asked for before the flop: the straddle, where it was posted
/// in full, else the big blind.
pub open spec fn asked_bet(m: HandModel) -> int {
    if is_straddled(m) && posts_at(m, left_by(m, 3)) == m.forced_straddle->Some_0.0 {
        m.forced_straddle->Some_0.0 as int
    } else {
        m.big_blind.0 as int
    }
}

proof fn lemma_left_by(m: HandModel, s: int)
    requires
        m.seats.len() > 0,
        0 <= s <= m.seats.len(),
    ensures
        0 <= left_by(m, s) < m.seats.len(),
        left_by(m, s) == if m.dealer_idx as int % m.seats.len() as int + s < m.seats.len() {
            m.dealer_idx as int % m.seats.len() as int + s
        } else {
            m.dealer_idx as int % m.seats.len() as int + s - m.seats.len()
        },
{
    let n = m.seats.len() as int;
    let d = m.dealer_idx as int % n;
    assert(0 <= d < n);
    invariants::lemma_wrap(d, s, n);
}

/// The places of the forced bets are those of the model.
pub proof fn lemma_places(m: HandModel)
    requires
        m.seats.len() >= 2,
    ensures
        m.blinds() == (small_place(m), big_place(m)),
        m.straddler() == if is_straddled(m) {
            Some(left_by(m, 3))
        } else {
            None
        },
        m.first_to_act() == opens_at(m),
        0 <= opens_at(m) < m.seats.len(),
        0 <= small_place(m) < m.seats.len(),
        0 <= big_place(m) < m.seats.len(),
        small_place(m) != big_place(m),
        is_straddled(m) ==> 0 <= left_by(m, 3) < m.seats.len() && left_by(m, 3) != small_place(m)
            && left_by(m, 3) != big_place(m),
{
    let n = m.seats.len() as int;
    let d = m.dealer_idx as int % n;
    invariants::lemma_blind_places(m);
    lemma_left_by(m, 0);
    lemma_left_by(m, 1);
    lemma_left_by(m, 2);
    let b = m.blinds().1;
    invariants::lemma_wrap(b, 1, n);
    if n >= 3 {
        lemma_left_by(m, 3);
        if is_straddled(m) {
            let i = left_by(m, 3);
            invariants::lemma_wrap(i, 1, n);
            if n >= 4 {
                lemma_left_by(m, 4);
            } else {
                assert((d + 4) % n == if d == 2 {
                    0int
                } else {
                    d + 1
                }) by (nonlinear_arith)
                    requires
                        0 <= d < n,
                        n == 3,
                ;
            }
        }
    }
}

// ---- the beginning ----
/// Players `players` with what seat `k` posts put in.
pub open spec fn state_after_post(m: HandModel, k: int) -> PlayerState {
    PlayerState {
        player_id: m.seats[k].player_id,
        stack: Chips((m.seats[k].stack.0 - posts_at(m, k)) as u32),
        contributed: Chips(posts_at(m, k) as u32),
        folded: false,
        acted: false,
    }
}

proof fn lemma_post_lands(players: Seq<PlayerState>, k: int, pid: PlayerId, amount: Chips)
    requires
        0 <= k < players.len(),
        players[k].player_id == pid,
        seqs::distinct(round::player_ids(players)),
        amount.0 <= players[k].stack.0,
    ensures
        round::posted(players, pid, amount) == players.update(
            k,
            PlayerState {
                stack: Chips((players[k].stack.0 - amount.0) as u32),
                contributed: Chips((players[k].contributed.0 + amount.0) as u32),
                ..players[k]
            },
        ),
{
    let ids = round::player_ids(players);
    assert forall|j: int| 0 <= j < k implies !round::is_player(pid)(#[trigger] players[j]) by {
        assert(ids[j] != ids[k]);
    }
    seqs::lemma_first_index_is(players, k, round::is_player(pid));
}

/// Every seat has posted what it is asked, or all it has.
proof fn lemma_all_post(m: HandModel)
    requires
        m.seats.len() >= 2,
        round::can_seat(m.entries()),
    ensures
        ({
            let after = round::all_posted(round::seated(m.entries()), m.posts());
            &&& after.len() == m.seats.len()
            &&& forall|k: int|
                0 <= k < m.seats.len() ==> (#[trigger] after[k]) == state_after_post(m, k)
        }),
{
    lemma_places(m);
    let (sb, bb) = m.blinds();
    let e = m.entries();
    let p0 = round::seated(e);
    round::lemma_seated(e);
    let posts = m.posts();
    lemma_post_lands(p0, sb, posts[0].0, posts[0].1);
    round::lemma_posted(p0, posts[0].0, posts[0].1);
    let p1 = round::posted(p0, posts[0].0, posts[0].1);
    lemma_post_lands(p1, bb, posts[1].0, posts[1].1);
    round::lemma_posted(p1, posts[1].0, posts[1].1);
    let p2 = round::posted(p1, posts[1].0, posts[1].1);
    let none = Seq::<(PlayerId, Chips)>::empty();
    assert(round::all_posted(p0, none) == p0);
    assert(seq![posts[0]].drop_last() =~= none);
    assert(round::all_posted(p0, seq![posts[0]]) == p1);
    let two = seq![posts[0], posts[1]];
    assert(two.drop_last() =~= seq![posts[0]]);
    assert(round::all_posted(p0, two) == p2);
    let after = round::all_posted(p0, posts);
    match m.straddler() {
        Some(i) => {
            assert(posts.drop_last() =~= two);
            lemma_post_lands(p2, i, posts[2].0, posts[2].1);
        },
        None => {
            assert(posts =~= two);
        },
    }
    assert forall|k: int| 0 <= k < m.seats.len() implies (#[trigger] after[k])
        == state_after_post(m, k) by {
        assert(p0[k].contributed == Chips(0));
    }
}

/// What a seat is after the beginning: it has posted its forced bet, has not
/// folded, and is all in where it has no chips left. Where the engine deals, it
/// has the `k`th of the next cards, and the `k`th after each seat has got one.
pub open spec fn seat_after_start(m: HandModel, n: HandModel, k: int) -> bool {
    let s = n.seats[k];
    &&& s.player_id == m.seats[k].player_id
    &&& s.seat == m.seats[k].seat
    &&& s.starting_stack == m.seats[k].starting_stack
    &&& s.stack.0 == m.seats[k].starting_stack.0 - posts_at(m, k)
    &&& !s.folded
    &&& s.all_in == (s.stack.0 == 0)
    &&& s.hole == if m.mode == HandMode::Plaintext {
        HoleSlot::Plain(
            HoleCards {
                card1: m.deck.cards[m.deck.next + k],
                card2: m.deck.cards[m.deck.next + m.seats.len() + k],
            },
        )
    } else {
        m.seats[k].hole
    }
}

/// Before the flop a hand is bet on as it should: every seat has put in what it
/// posted, the bet is the largest of what is asked for and what was posted, the
/// least raise is as large, and nobody has acted.
pub open spec fn preflop_right(m: HandModel, r: RoundModel) -> bool {
    &&& r.players.len() == m.seats.len()
    &&& forall|k: int|
        0 <= k < m.seats.len() ==> (#[trigger] r.players[k]) == state_after_post(m, k)
    &&& r.bet.0 >= asked_bet(m)
    &&& forall|k: int| 0 <= k < m.seats.len() ==> r.bet.0 >= #[trigger] posts_at(m, k)
    &&& r.bet.0 == asked_bet(m) || exists|k: int|
        0 <= k < m.seats.len() && r.bet.0 == #[trigger] posts_at(m, k)
    &&& r.last_full_raise == r.bet
}

/// The seat `s` places after seat `k`, going round the table.
pub open spec fn on_by(m: HandModel, k: int, s: int) -> int {
    (k + s) % (m.seats.len() as int)
}

/// Seat `k` is the first from `from` on, going round the table, that has not
/// folded and has chips.
pub open spec fn first_with_chips(m: HandModel, from: int, k: int, s: int) -> bool {
    &&& 0 <= s < m.seats.len()
    &&& k == on_by(m, from, s)
    &&& !m.seats[k].folded
    &&& m.seats[k].stack.0 > 0
    &&& forall|t: int|
        0 <= t < s ==> m.seats[#[trigger] on_by(m, from, t)].folded || m.seats[on_by(
            m,
            from,
            t,
        )].stack.0 == 0
}

pub proof fn lemma_opening(m: HandModel)
    requires
        m.wf(),
        m.start_refusal() is None,
        m.can_deal(),
    ensures
        ({
            let o = m.announced().blinds_recorded().holes_dealt().preflop_opened(
            ).opening_reported(m.opening_posts());
            &&& o.sound()
            &&& o.seats.len() == m.seats.len()
            &&& o.dealer_idx == m.dealer_idx
            &&& o.phase == Phase::Betting(Street::Preflop)
            &&& o.round is Some
            &&& preflop_right(m, o.round->Some_0)
            &&& forall|k: int| 0 <= k < m.seats.len() ==> #[trigger] seat_after_start(m, o, k)
            &&& !o.round->Some_0.done() ==> exists|s: int|
                #[trigger] round::turn_is_first_from(o.round->Some_0, opens_at(m), s)
        }),
{
    start::lemma_recorded(m);
    start::lemma_dealt(m);
    let d = m.announced().blinds_recorded().holes_dealt();
    invariants::lemma_preflop_opened(d);
    let p = d.preflop_opened();
    start::lemma_opening_reported(p, m.opening_posts());
    let o = p.opening_reported(m.opening_posts());
    lemma_places(m);
    lemma_places(d);
    lemma_all_post(d);
    let e = d.entries();
    let after = round::all_posted(round::seated(e), d.posts());
    let r = o.round->Some_0;
    round::lemma_top_stake(after);
    let top = round::top_stake(after);
    let bet = if d.bring_in().0 >= top {
        d.bring_in()
    } else {
        Chips(top as u32)
    };
    let fresh = RoundModel {
        players: after,
        actor: d.first_to_act(),
        bet,
        last_full_raise: bet,
    };
    round::lemma_turned(fresh, d.first_to_act(), fresh.players.len());
    assert(r.players == after);
    assert(left_by(d, 3) == left_by(m, 3));
    assert forall|k: int| 0 <= k < m.seats.len() implies posts_at(d, k) == #[trigger] posts_at(
        m,
        k,
    ) by {
        assert(d.seats[k].stack == m.seats[k].stack);
        assert(asked(d, k) == asked(m, k));
    }
    assert forall|k: int| 0 <= k < m.seats.len() implies (#[trigger] r.players[k])
        == state_after_post(m, k) by {
        assert(after[k] == state_after_post(d, k));
        assert(posts_at(d, k) == posts_at(m, k));
        assert(d.seats[k].player_id == m.seats[k].player_id);
    }
    assert(asked_bet(d) == asked_bet(m)) by {
        if is_straddled(m) {
            assert(posts_at(d, left_by(m, 3)) == posts_at(m, left_by(m, 3)));
        }
    }
    assert(d.bring_in().0 == asked_bet(d));
    assert forall|k: int| 0 <= k < m.seats.len() implies r.bet.0 >= #[trigger] posts_at(
        m,
        k,
    ) by {
        assert(r.players[k] == state_after_post(m, k));
        assert(after[k].contributed.0 <= top);
    }
    if r.bet.0 != asked_bet(m) {
        let k = choose|k: int|
            0 <= k < after.len() && !(#[trigger] after[k]).folded && after[k].contributed.0 == top;
        assert(r.players[k] == state_after_post(m, k));
        assert(r.bet.0 == posts_at(m, k));
    }
    assert forall|k: int| 0 <= k < m.seats.len() implies #[trigger] seat_after_start(m, o, k) by {
        let ids = round::player_ids(r.players);
        assert(round::player_ids(r.players) =~= model::seat_ids(m.seats));
        assert(r.index_of(d.seats[k].player_id) == k) by {
            assert forall|j: int| 0 <= j < k implies !round::is_player(d.seats[k].player_id)(
                #[trigger] r.players[j],
            ) by {
                assert(ids[j] != ids[k]);
            }
            assert(r.players[k].player_id == d.seats[k].player_id);
            seqs::lemma_first_index_is(r.players, k, round::is_player(d.seats[k].player_id));
        }
        assert(r.players[k] == state_after_post(m, k));
        assert(m.seats[k].stack == m.seats[k].starting_stack);
    }
    if !r.done() {
        round::lemma_done_same(fresh, r);
        let s = round::lemma_turn_given(fresh, d.first_to_act());
        assert(round::turn_is_first_from(r, opens_at(m), s));
    }
}

/// When a hand begins, every seat posts what it is asked, or all it has: the
/// small blind left of the button and the big blind after it, or the button and
/// the other player heads-up, and the straddle after the big blind where one is
/// forced among three or more. Nobody else posts. Where the engine deals, the
/// seats get one card each in order, and then another.
pub proof fn law_forced_bets_are_posted(m: HandModel)
    requires
        m.wf(),
        m.start_refusal() is None,
        m.can_deal(),
    ensures
        m.started().0.seats.len() == m.seats.len(),
        forall|k: int|
            0 <= k < m.seats.len() ==> #[trigger] seat_after_start(m, m.started().0, k),
{
    lemma_opening(m);
    let o = m.announced().blinds_recorded().holes_dealt().preflop_opened().opening_reported(
        m.opening_posts(),
    );
    if o.round->Some_0.done() {
        invariants::lemma_street_closed(o);
        assert forall|k: int| 0 <= k < m.seats.len() implies #[trigger] seat_after_start(
            m,
            m.started().0,
            k,
        ) by {
            assert(seat_after_start(m, o, k));
        }
    }
}

/// The number of the next record after number `n`; the last number stays.
pub open spec fn number_after(n: u16) -> int {
    if n < u16::MAX {
        n + 1
    } else {
        n as int
    }
}

/// The record of the forced bet of seat `k`, with `pot` chips in the pot before it.
pub open spec fn tells_forced_bet(
    m: HandModel,
    a: ActionRecord,
    k: int,
    kind: BlindKind,
    pot: int,
) -> bool {
    &&& a.street == Street::Preflop
    &&& a.player_id == m.seats[k].player_id
    &&& a.amount.0 == posts_at(m, k)
    &&& a.action == PlayerAction::Blind { kind, amount: a.amount }
    &&& a.stack_before == m.seats[k].stack
    &&& a.stack_after.0 == m.seats[k].stack.0 - posts_at(m, k)
    &&& a.pot_before.0 == pot
    &&& a.pot_after.0 == pot + posts_at(m, k)
}

/// When a hand begins, the forced bets are put on record in their order, each
/// with its chips, its number and the pot around it, and remembered as the last
/// actions of their players.
pub proof fn law_forced_bets_are_on_record(m: HandModel)
    requires
        m.wf(),
        m.start_refusal() is None,
        m.can_deal(),
    ensures
        ({
            let n = m.started().0;
            let f = m.actions.len() as int;
            let small = small_place(m);
            let big = big_place(m);
            let third = left_by(m, 3);
            &&& n.actions.len() == f + if is_straddled(m) {
                3int
            } else {
                2int
            }
            &&& n.actions.take(f) == m.actions
            &&& n.actions[f].seq == m.action_seq
            &&& tells_forced_bet(m, n.actions[f], small, BlindKind::Small, 0)
            &&& n.actions[f + 1].seq == number_after(n.actions[f].seq)
            &&& tells_forced_bet(m, n.actions[f + 1], big, BlindKind::Big, posts_at(m, small))
            &&& is_straddled(m) ==> {
                &&& n.actions[f + 2].seq == number_after(n.actions[f + 1].seq)
                &&& tells_forced_bet(
                    m,
                    n.actions[f + 2],
                    third,
                    BlindKind::Straddle,
                    posts_at(m, small) + posts_at(m, big),
                )
            }
            &&& n.action_seq == number_after(n.actions.last().seq)
            &&& n.last_action == if is_straddled(m) {
                m.last_action.insert(m.seats[small].player_id.0, n.actions[f].action).insert(
                    m.seats[big].player_id.0,
                    n.actions[f + 1].action,
                ).insert(m.seats[third].player_id.0, n.actions[f + 2].action)
            } else {
                m.last_action.insert(m.seats[small].player_id.0, n.actions[f].action).insert(
                    m.seats[big].player_id.0,
                    n.actions[f + 1].action,
                )
            }
        }),
{
    lemma_places(m);
    lemma_opening(m);
    let o = m.announced().blinds_recorded().holes_dealt().preflop_opened().opening_reported(
        m.opening_posts(),
    );
    let n = m.started().0;
    invariants::lemma_street_closed(o);
    assert(n.actions == o.actions);
    assert(n.last_action == o.last_action);
    start::lemma_posts_fit(m);
    assert(n.actions.take(m.actions.len() as int) =~= m.actions);
}

/// Whether a hand can begin: it has not, there are two players, and their chips
/// can be counted; where the engine deals there must be two cards for each.
pub proof fn law_when_a_hand_can_begin(m: HandModel)
    requires
        m.wf(),
    ensures
        m.start_refusal() is None <==> m.phase is NotStarted && m.seats.len() >= 2
            && seqs::sum_of(m.seats, |s: HandSeat| s.starting_stack.0 as int) <= u32::MAX,
        m.can_deal() <==> m.mode == HandMode::Blind || m.deck.cards.len() - m.deck.next >= 2
            * m.seats.len(),
        m.start_refusal() is Some ==> m.started().0 == m && m.started().1 is Err,
        m.start_refusal() is None && !m.can_deal() ==> m.started().1 is Err,
        !(m.phase is NotStarted) ==> m.start_refusal() == Some(ActionError::HandFinished),
        m.phase is NotStarted && seqs::sum_of(m.seats, |s: HandSeat| s.starting_stack.0 as int)
            > u32::MAX ==> m.start_refusal() == Some(ActionError::InvalidAction),
        m.phase is NotStarted && m.seats.len() < 2 && seqs::sum_of(
            m.seats,
            |s: HandSeat| s.starting_stack.0 as int,
        ) <= u32::MAX ==> m.start_refusal() == Some(ActionError::NotInHand),
        m.start_refusal() matches Some(e) ==> m.started().1 == Err::<(), ActionError>(e),
{
    seqs::lemma_sum_same(
        m.seats,
        m.seats,
        model::start_chips(),
        |s: HandSeat| s.starting_stack.0 as int,
    );
}

/// When a hand begins and somebody has to act, the turn is with the first seat
/// that has chips from the one after the last forced bet on: after the big
/// blind, or after the straddle. The bet is what is asked for or the largest
/// post, and a raise must be as large.
pub proof fn law_first_turn_is_after_the_forced_bets(m: HandModel)
    requires
        m.wf(),
        m.start_refusal() is None,
        m.can_deal(),
        m.started().0.phase == Phase::Betting(Street::Preflop),
        m.started().0.current_actor() is Some,
    ensures
        m.started().1 is Ok,
        m.started().0.round is Some,
        preflop_right(m, m.started().0.round->Some_0),
        exists|k: int, s: int|
            #[trigger] first_with_chips(m.started().0, opens_at(m), k, s)
                && m.started().0.current_actor() == Some(m.seats[k].player_id),
{
    lemma_opening(m);
    lemma_places(m);
    let o = m.announced().blinds_recorded().holes_dealt().preflop_opened().opening_reported(
        m.opening_posts(),
    );
    let n = m.started().0;
    let r = o.round->Some_0;
    if r.done() {
        lemma_closed_goes_on(o);
        assert(false);
    }
    assert(n == o);
    let s0 = choose|s: int| #[trigger] round::turn_is_first_from(r, opens_at(m), s);
    let s = lemma_short_turn(r, opens_at(m), s0);
    let k = r.actor;
    assert(0 <= k < m.seats.len());
    assert(seat_after_start(m, o, k));
    assert(r.players[k] == state_after_post(m, k));
    assert(on_by(n, opens_at(m), s) == round::round_table(r, opens_at(m), s));
    assert forall|t: int| 0 <= t < s implies n.seats[#[trigger] on_by(
        n,
        opens_at(m),
        t,
    )].folded || n.seats[on_by(n, opens_at(m), t)].stack.0 == 0 by {
        let j = on_by(n, opens_at(m), t);
        assert(j == round::round_table(r, opens_at(m), t));
        assert(!round::waits(r, round::round_table(r, opens_at(m), t)));
        assert(0 <= j < m.seats.len());
        assert(seat_after_start(m, o, j));
        assert(r.players[j] == state_after_post(m, j));
    }
    assert(first_with_chips(n, opens_at(m), k, s));
}

/// The turn is found within one round of the table.
proof fn lemma_short_turn(r: RoundModel, from: int, s: int) -> (t: int)
    requires
        0 <= from < r.players.len(),
        round::turn_is_first_from(r, from, s),
    ensures
        t == s,
        0 <= t < r.players.len(),
        0 <= r.actor < r.players.len(),
{
    let n = r.players.len() as int;
    assert(0 <= r.actor < n);
    if s >= n {
        let t = if r.actor >= from {
            r.actor - from
        } else {
            r.actor - from + n
        };
        invariants::lemma_wrap(from, t, n);
        assert(round::round_table(r, from, t) == r.actor);
        assert(!round::waits(r, round::round_table(r, from, t)));
    }
    s
}

// ---- from street to street ----
/// The street after a street.
pub open spec fn comes_after(s: Street, t: Street) -> bool {
    match s {
        Street::Preflop => t == Street::Flop,
        Street::Flop => t == Street::Turn,
        Street::Turn => t == Street::River,
        Street::River => false,
    }
}

/// How many of the seats up to `k` have not folded.
pub open spec fn left_before(m: HandModel, k: int) -> int
    decreases k,
{
    if k <= 0 {
        0
    } else {
        left_before(m, k - 1) + if m.seats[k - 1].folded {
            0int
        } else {
            1int
        }
    }
}

/// A street opens as it should: the players left take part in the order in
/// which they sit, nobody has put in anything or acted, there is no bet, and a
/// raise must be at least the big blind. Where somebody has to act, that is the
/// first seat left of the button that has neither folded nor gone all in.
pub open spec fn street_opens(m: HandModel, r: RoundModel) -> bool {
    &&& r.players.len() == left_before(m, m.seats.len() as int)
    &&& forall|k: int|
        0 <= k < m.seats.len() && !(#[trigger] m.seats[k]).folded ==> r.players[left_before(m, k)]
            == (PlayerState {
            player_id: m.seats[k].player_id,
            stack: m.seats[k].stack,
            contributed: Chips(0),
            folded: false,
            acted: false,
        })
    &&& r.bet.0 == 0
    &&& r.last_full_raise == m.big_blind
    &&& !r.done() ==> exists|s: int| #[trigger] leads_off(m, r, s)
}

/// The seat `s` places left of the button is the first that has neither folded
/// nor gone all in, and the turn is its player's.
pub open spec fn leads_off(m: HandModel, r: RoundModel, s: int) -> bool {
    let k = left_by(m, s);
    &&& 1 <= s <= m.seats.len()
    &&& !m.seats[k].folded
    &&& !m.seats[k].all_in
    &&& forall|t: int|
        1 <= t < s ==> m.seats[#[trigger] left_by(m, t)].folded || m.seats[left_by(m, t)].all_in
    &&& r.current() == Some(m.seats[k].player_id)
}

proof fn lemma_entries_in_order(m: HandModel, i: int)
    requires
        0 <= i <= m.seats.len(),
    ensures
        seqs::pick(m.seats.take(i), model::in_hand(), model::seat_entry()).len() == left_before(
            m,
            i,
        ),
        forall|k: int|
            0 <= k < i && !(#[trigger] m.seats[k]).folded ==> 0 <= left_before(m, k) < left_before(
                m,
                i,
            ) && seqs::pick(m.seats.take(i), model::in_hand(), model::seat_entry())[left_before(
                m,
                k,
            )] == (m.seats[k].player_id, m.seats[k].stack),
    decreases i,
{
    if i > 0 {
        lemma_entries_in_order(m, i - 1);
        let t = m.seats.take(i);
        assert(t.drop_last() =~= m.seats.take(i - 1));
        assert(t.last() == m.seats[i - 1]);
        let e = seqs::pick(t, model::in_hand(), model::seat_entry());
        let rest = seqs::pick(t.drop_last(), model::in_hand(), model::seat_entry());
        assert forall|k: int| 0 <= k < i && !(#[trigger] m.seats[k]).folded implies 0
            <= left_before(m, k) < left_before(m, i) && e[left_before(m, k)] == (
            m.seats[k].player_id,
            m.seats[k].stack,
        ) by {
            if k < i - 1 {
                assert(rest[left_before(m, k)] == (m.seats[k].player_id, m.seats[k].stack));
            }
        }
    } else {
        assert(m.seats.take(0).len() == 0);
    }
}

proof fn lemma_street_opens(m: HandModel, street: Street)
    requires
        m.sound(),
        m.round is None,
        m.phase is Betting,
    ensures
        street_opens(m, m.round_opened(street).round->Some_0),
{
    let o = m.round_opened(street);
    let r = o.round->Some_0;
    let e = m.next_entries();
    let n = m.seats.len() as int;
    invariants::lemma_round_opened(m, street);
    lemma_entries_in_order(m, n);
    assert(m.seats.take(n) =~= m.seats);
    round::law_round_opens(e, m.next_first(), Chips(0), m.big_blind);
    assert forall|k: int| 0 <= k < n && !(
    #[trigger] m.seats[k]).folded implies r.players[left_before(m, k)] == (PlayerState {
        player_id: m.seats[k].player_id,
        stack: m.seats[k].stack,
        contributed: Chips(0),
        folded: false,
        acted: false,
    }) by {
        let i = left_before(m, k);
        assert(e[i] == (m.seats[k].player_id, m.seats[k].stack));
    }
    if !r.done() {
        lemma_leads_off(m, street);
    }
}

proof fn lemma_leads_off(m: HandModel, street: Street)
    requires
        m.sound(),
        m.round is None,
        m.phase is Betting,
        !m.round_opened(street).round->Some_0.done(),
    ensures
        exists|s: int| #[trigger] leads_off(m, m.round_opened(street).round->Some_0, s),
{
    let o = m.round_opened(street);
    let r = o.round->Some_0;
    let e = m.next_entries();
    let n = m.seats.len() as int;
    let d = m.dealer_idx as int % n;
    let left = m.left_of_button();
    let row = m.seats_from(left);
    invariants::lemma_round_opened(m, street);
    assert(0 <= d < n);
    invariants::lemma_wrap(d, 1, n);
    // Somebody can act.
    assert(r.wf());
    let w = r.players[r.actor];
    assert(r.owes_action(r.actor));
    let h = o.seat_index(w.player_id);
    invariants::lemma_seat_index(o, w.player_id);
    assert(o.seats[h].stack == w.stack && o.seats[h].folded == w.folded);
    assert(!m.seats[h].folded && m.seats[h].stack.0 > 0 && !m.seats[h].all_in);
    let x = if h >= left {
        h - left
    } else {
        h - left + n
    };
    invariants::lemma_wrap(left, x, n);
    assert(row[x] == m.seats[h]);
    assert(model::can_act_seat()(row[x]));
    seqs::lemma_first_index(row, model::can_act_seat());
    let i = seqs::first_index(row, model::can_act_seat());
    assert(i <= x);
    assert(model::can_act_seat()(row[i]));
    invariants::lemma_wrap(left, i, n);
    let k = (left + i) % n;
    assert(m.first_active(left) == k);
    assert(!m.seats[k].folded && !m.seats[k].all_in);
    assert(m.seats[k].stack.0 > 0);
    // It is that seat's turn.
    let pid = m.seats[k].player_id;
    seqs::lemma_pick_has(m.seats, k, model::in_hand(), model::seat_entry());
    let z = choose|z: int| 0 <= z < e.len() && e[z] == model::seat_entry()(m.seats[k]);
    seqs::lemma_first_index(e, model::is_entry_of(pid));
    assert(model::is_entry_of(pid)(e[z]));
    let f = seqs::first_index(e, model::is_entry_of(pid));
    assert(f <= z);
    assert(model::is_entry_of(pid)(e[f]));
    assert(m.next_first() == f);
    if f < z {
        let ids = Seq::new(e.len(), |q: int| e[q].0);
        assert(ids[f] == ids[z]);
    }
    let fresh = RoundModel {
        players: round::seated(e),
        actor: f,
        bet: Chips(0),
        last_full_raise: m.big_blind,
    };
    assert(fresh.owes_action(f));
    assert(fresh.turned(f, fresh.players.len()).actor == f);
    assert(r.actor == f);
    assert(r.current() == Some(pid));
    // Nobody before it can act.
    lemma_left_by(m, i + 1);
    assert(left_by(m, i + 1) == k);
    assert forall|t: int| 1 <= t < i + 1 implies m.seats[#[trigger] left_by(m, t)].folded
        || m.seats[left_by(m, t)].all_in by {
        lemma_left_by(m, t);
        invariants::lemma_wrap(left, t - 1, n);
        assert(row[t - 1] == m.seats[left_by(m, t)]);
        assert(!model::can_act_seat()(row[t - 1]));
    }
    assert(leads_off(m, r, i + 1));
}

/// Two players left have chips.
pub open spec fn two_can_bet(m: HandModel) -> bool {
    exists|i: int, j: int|
        #![trigger m.seats[i], m.seats[j]]
        0 <= i < j < m.seats.len() && !m.seats[i].folded && !m.seats[j].folded
            && m.seats[i].stack.0 > 0 && m.seats[j].stack.0 > 0
}

/// What the hand is after a street has closed. The seats keep their chips and
/// cards. It is over where one player is left or the river was played. Otherwise
/// the next street opens, if two players can bet on it and there are cards for
/// it; where nobody can bet, the engine deals the rest of the board and the hand
/// is over, while cards that are dealt elsewhere are waited for.
pub open spec fn street_closes(m: HandModel, n: HandModel, ok: bool) -> bool {
    &&& n.seats == m.seats
    &&& n.dealer_idx == m.dealer_idx
    &&& n.big_blind == m.big_blind
    &&& n.mode == m.mode
    &&& if !showdown_laws::two_left(m) || m.street() == Street::River {
        &&& ok
        &&& n.phase is Done
        &&& n.finished_street == Some(m.street())
        &&& n.board == m.board
    } else if !ok {
        &&& m.mode == HandMode::Plaintext
        &&& m.deck.cards.len() - m.deck.next < 5
    } else if n.phase is Done {
        &&& m.mode == HandMode::Plaintext
        &&& !two_can_bet(m)
        &&& n.finished_street == Some(Street::River)
    } else {
        &&& n.phase matches Phase::Betting(s) && comes_after(m.street(), s)
        &&& n.round is Some
        &&& street_opens(n, n.round->Some_0)
        &&& n.round->Some_0.done() == !two_can_bet(m)
        &&& m.mode == HandMode::Plaintext ==> two_can_bet(m)
        &&& m.mode == HandMode::Blind ==> n.board == m.board && n.pending_board_street == Some(
            n.street(),
        )
    }
}

/// A round that opens is over at once exactly where no two players can bet.
proof fn lemma_fresh_done(m: HandModel, r: RoundModel)
    requires
        street_opens(m, r),
        showdown_laws::two_left(m),
    ensures
        r.done() == !two_can_bet(m),
{
    let (a, b) = choose|i: int, j: int|
        #![trigger m.seats[i], m.seats[j]]
        0 <= i < j < m.seats.len() && !m.seats[i].folded && !m.seats[j].folded;
    round::law_when_a_round_is_over(r);
    lemma_left_grows(m, a, b);
    lemma_left_grows(m, b, m.seats.len() as int);
    let la = left_before(m, a);
    let lb = left_before(m, b);
    assert(!r.players[la].folded && !r.players[lb].folded && la < lb);
    if two_can_bet(m) {
        lemma_two_bet(m, r);
    } else {
        lemma_none_bet(m, r);
    }
}

proof fn lemma_two_bet(m: HandModel, r: RoundModel)
    requires
        street_opens(m, r),
        two_can_bet(m),
    ensures
        exists|k: int| 0 <= k < r.players.len() && round::waits(r, k),
        forall|k: int|
            0 <= k < r.players.len() && !(#[trigger] r.players[k]).folded && r.players[k].stack.0
                > 0 ==> !round::alone_and_level(r, k),
{
    let (i, j) = choose|i: int, j: int|
        #![trigger m.seats[i], m.seats[j]]
        0 <= i < j < m.seats.len() && !m.seats[i].folded && !m.seats[j].folded
            && m.seats[i].stack.0 > 0 && m.seats[j].stack.0 > 0;
    lemma_left_grows(m, i, j);
    lemma_left_grows(m, j, m.seats.len() as int);
    let x = left_before(m, i);
    let y = left_before(m, j);
    assert(r.players[x].stack.0 > 0 && r.players[y].stack.0 > 0 && x < y);
    assert(round::waits(r, x));
}

proof fn lemma_none_bet(m: HandModel, r: RoundModel)
    requires
        street_opens(m, r),
        !two_can_bet(m),
    ensures
        forall|k: int|
            0 <= k < r.players.len() && #[trigger] round::waits(r, k) ==> !r.players[k].folded
                && r.players[k].stack.0 > 0 && round::alone_and_level(r, k),
{
    assert forall|k: int| 0 <= k < r.players.len() && #[trigger] round::waits(
        r,
        k,
    ) implies !r.players[k].folded && r.players[k].stack.0 > 0 && round::alone_and_level(
        r,
        k,
    ) by {
        let sk = lemma_left_found(m, k, m.seats.len() as int);
        assert forall|j: int| 0 <= j < r.players.len() && !(
        #[trigger] r.players[j]).folded implies r.players[j].contributed.0
            <= r.players[k].contributed.0 && (r.players[j].stack.0 > 0 ==> j == k) by {
            let sj = lemma_left_found(m, j, m.seats.len() as int);
            assert(!m.seats[sj].folded && !m.seats[sk].folded);
        }
    }
}

proof fn lemma_left_grows(m: HandModel, i: int, j: int)
    requires
        0 <= i <= j <= m.seats.len(),
    ensures
        0 <= left_before(m, i) <= left_before(m, j),
        i < j && !m.seats[i].folded ==> left_before(m, i) < left_before(m, j),
    decreases j,
{
    if j > 0 {
        if i < j {
            lemma_left_grows(m, i, j - 1);
        } else {
            lemma_left_grows(m, i - 1, j - 1);
        }
    }
}

proof fn lemma_left_found(m: HandModel, j: int, i: int) -> (s: int)
    requires
        0 <= i <= m.seats.len(),
        0 <= j < left_before(m, i),
    ensures
        0 <= s < i,
        !m.seats[s].folded,
        left_before(m, s) == j,
    decreases i,
{
    if left_before(m, i - 1) > j {
        lemma_left_found(m, j, i - 1)
    } else {
        i - 1
    }
}

/// A hand whose seats nobody can bet from runs out.
proof fn lemma_runs_out(m: HandModel)
    requires
        m.sound(),
        m.phase is Betting,
        m.mode == HandMode::Plaintext,
        showdown_laws::two_left(m),
        !two_can_bet(m),
    ensures
        m.street_closed().1 is Ok ==> m.street_closed().0.phase is Done
            && m.street_closed().0.finished_street == Some(Street::River),
        m.street_closed().1 is Err ==> m.deck.cards.len() - m.deck.next < 5,
        m.street_closed().0.dealer_idx == m.dealer_idx,
        m.street_closed().0.big_blind == m.big_blind,
        m.street_closed().1 is Err ==> m.street() != Street::River,
        m.street() == Street::Flop && m.street_closed().1 is Err ==> m.deck.cards.len()
            - m.deck.next < 2,
        m.street() == Street::Turn && m.street_closed().1 is Err ==> m.deck.cards.len()
            - m.deck.next < 1,
    decreases 3 - m.street().order(),
{
    showdown_laws::lemma_two_left(m);
    invariants::lemma_banked(m);
    let b = m.banked();
    if let Some(s) = model::street_after(b.street()) {
        if b.deck.left() >= game::street_cards(s) {
            lemma_next_opens(m, s);
            lemma_runs_out(b.board_advanced(s).round_opened(s).state_reported());
        }
    }
}

/// What closing a street does.
#[verifier::rlimit(40)]
proof fn lemma_street_closes(m: HandModel)
    requires
        m.sound(),
        m.phase is Betting,
    ensures
        street_closes(m, m.street_closed().0, m.street_closed().1 is Ok),
{
    showdown_laws::lemma_two_left(m);
    invariants::lemma_street_closed(m);
    invariants::lemma_banked(m);
    let b = m.banked();
    if showdown_laws::two_left(m) && m.street() != Street::River {
        let s = model::street_after(b.street())->Some_0;
        if !(b.mode == HandMode::Plaintext && b.deck.left() < game::street_cards(s)) {
            lemma_next_opens(m, s);
            let o = b.board_advanced(s).round_opened(s).state_reported();
            if o.mode == HandMode::Plaintext && o.round->Some_0.done() {
                lemma_runs_out(o);
            }
        }
    }
}

/// What the next street is, when it opens.
proof fn lemma_next_opens(m: HandModel, s: Street)
    requires
        m.sound(),
        m.phase is Betting,
        showdown_laws::two_left(m),
        model::street_after(m.street()) == Some(s),
        m.mode == HandMode::Plaintext ==> m.deck.left() >= game::street_cards(s),
    ensures
        ({
            let o = m.banked().board_advanced(s).round_opened(s).state_reported();
            &&& o.sound()
            &&& o.seats == m.seats
            &&& o.dealer_idx == m.dealer_idx
            &&& o.big_blind == m.big_blind
            &&& o.mode == m.mode
            &&& o.phase == Phase::Betting(s)
            &&& o.round is Some
            &&& street_opens(o, o.round->Some_0)
            &&& o.round->Some_0.done() == !two_can_bet(m)
            &&& showdown_laws::two_left(o)
            &&& two_can_bet(o) == two_can_bet(m)
            &&& m.mode == HandMode::Blind ==> o.board == m.board && o.pending_board_street
                == Some(s)
            &&& m.mode == HandMode::Plaintext ==> o.deck.left() == m.deck.left()
                - game::street_cards(s)
        }),
{
    invariants::lemma_banked(m);
    let b = m.banked();
    let a = b.board_advanced(s);
    assert(a.sound());
    assert(a.seats == m.seats);
    assert(showdown_laws::two_left(a) == showdown_laws::two_left(m));
    assert(two_can_bet(a) == two_can_bet(m));
    invariants::lemma_round_opened(a, s);
    lemma_street_opens(a, s);
    let o = a.round_opened(s).state_reported();
    let r = o.round->Some_0;
    assert(r == a.round_opened(s).round->Some_0);
    lemma_fresh_done(a, r);
    assert(o.sound());
    assert(o.seats == m.seats);
    assert(showdown_laws::two_left(o) == showdown_laws::two_left(m));
    assert(two_can_bet(o) == two_can_bet(m));
    lemma_opens_alike(a, o, r);
}

/// How a street opens depends on the seats, the button and the big blind alone.
proof fn lemma_opens_alike(a: HandModel, b: HandModel, r: RoundModel)
    requires
        a.seats == b.seats,
        a.dealer_idx == b.dealer_idx,
        a.big_blind == b.big_blind,
        street_opens(a, r),
    ensures
        street_opens(b, r),
{
    assert forall|k: int| left_before(a, k) == #[trigger] left_before(b, k) by {
        lemma_left_alike(a, b, k);
    }
    assert forall|s: int| left_by(a, s) == #[trigger] left_by(b, s) by {}
    if !r.done() {
        let s = choose|s: int| #[trigger] leads_off(a, r, s);
        assert forall|t: int| 1 <= t < s implies b.seats[#[trigger] left_by(b, t)].folded
            || b.seats[left_by(b, t)].all_in by {
            assert(a.seats[left_by(a, t)].folded || a.seats[left_by(a, t)].all_in);
        }
        assert(leads_off(b, r, s));
    }
}

proof fn lemma_left_alike(a: HandModel, b: HandModel, k: int)
    requires
        a.seats == b.seats,
    ensures
        left_before(a, k) == left_before(b, k),
    decreases k,
{
    if k > 0 {
        lemma_left_alike(a, b, k - 1);
    }
}

/// A hand whose round is over before the flop does not stay there.
proof fn lemma_closed_goes_on(m: HandModel)
    requires
        m.sound(),
        m.phase is Betting,
    ensures
        m.street_closed().1 is Ok ==> m.street_closed().0.phase != m.phase,
        m.street_closed().1 is Err ==> m.street_closed().0.current_actor() is None,
{
    lemma_street_closes(m);
    lemma_failed_close(m);
}

proof fn lemma_failed_close(m: HandModel)
    requires
        m.sound(),
        m.phase is Betting,
    ensures
        m.street_closed().1 is Err ==> m.street_closed().0.round is None,
    decreases 3 - m.street().order(),
{
    invariants::lemma_banked(m);
    let b = m.banked();
    if let Some(s) = model::street_after(b.street()) {
        if b.active_count() > 1 && !(b.mode == HandMode::Plaintext && b.deck.left()
            < game::street_cards(s)) {
            let a = b.board_advanced(s);
            assert(a.sound());
            invariants::lemma_round_opened(a, s);
            let o = a.round_opened(s).state_reported();
            assert(o.sound());
            lemma_failed_close(o);
        }
    }
}

/// An action that ends its betting round closes the street, and the next opens
/// as it should: the first seat left of the button that has neither folded nor
/// gone all in is to act. An action that does not leaves the street open.
pub proof fn law_streets_follow_one_another(m: HandModel, pid: PlayerId, action: PlayerAction)
    requires
        m.wf(),
        m.refusal(pid, action) is None,
    ensures
        m.acted(pid, action).round is Some,
        m.acted(pid, action).street() == m.street(),
        m.acted(pid, action).round->Some_0.done() ==> street_closes(
            m.acted(pid, action),
            m.applied(pid, action).0,
            m.applied(pid, action).1 is Ok,
        ),
        !m.acted(pid, action).round->Some_0.done() ==> m.applied(pid, action) == (
            m.acted(pid, action),
            Ok::<bool, ActionError>(false),
        ),
        m.applied(pid, action).1 == Ok::<bool, ActionError>(true) ==> m.acted(
            pid,
            action,
        ).round->Some_0.done(),
{
    invariants::lemma_acted(m, pid, action);
    let n = m.acted(pid, action);
    if n.round->Some_0.done() {
        lemma_street_closes(n);
    }
}

/// When somebody is to act on a new street, it is the first seat left of the
/// button that has neither folded nor gone all in, whatever action closed the
/// street before.
pub proof fn law_first_turn_of_a_street_is_left_of_the_button(
    m: HandModel,
    pid: PlayerId,
    action: PlayerAction,
)
    requires
        m.wf(),
        m.applied(pid, action).1 == Ok::<bool, ActionError>(true),
        m.applied(pid, action).0.current_actor() is Some,
    ensures
        ({
            let n = m.applied(pid, action).0;
            &&& n.phase matches Phase::Betting(s) && comes_after(m.street(), s)
            &&& n.round is Some
            &&& street_opens(n, n.round->Some_0)
            &&& exists|s: int|
                #[trigger] leads_off(n, n.round->Some_0, s) && n.current_actor() == Some(
                    n.seats[left_by(n, s)].player_id,
                )
        }),
{
    law_streets_follow_one_another(m, pid, action);
    let n = m.applied(pid, action).0;
    invariants::lemma_applied(m, pid, action);
    let s = choose|s: int| #[trigger] leads_off(n, n.round->Some_0, s);
    assert(leads_off(n, n.round->Some_0, s));
}

/// A hand that begins with its round over at once, and the cards of a street
/// that nobody can bet on, close the street as an action does.
pub proof fn law_streets_close_by_themselves(m: HandModel, cards: Seq<Card>)
    requires
        m.wf(),
    ensures
        m.start_refusal() is None && m.can_deal() ==> ({
            let o = m.announced().blinds_recorded().holes_dealt().preflop_opened(
            ).opening_reported(m.opening_posts());
            if o.round->Some_0.done() {
                street_closes(o, m.started().0, m.started().1 is Ok)
            } else {
                m.started() == (o, Ok::<(), ActionError>(()))
            }
        }),
        m.board_refusal(cards) is None ==> ({
            let s = m.board_shown(cards);
            if s.round matches Some(r) && r.done() {
                street_closes(s, m.board_taken(cards), true)
            } else {
                m.board_taken(cards) == s
            }
        }),
{
    if m.start_refusal() is None && m.can_deal() {
        lemma_opening(m);
        let o = m.announced().blinds_recorded().holes_dealt().preflop_opened(
        ).opening_reported(m.opening_posts());
        if o.round->Some_0.done() {
            lemma_street_closes(o);
        }
    }
    if m.board_refusal(cards) is None {
        let s = m.board_shown(cards);
        assert(s.sound());
        if let Some(r) = s.round {
            if r.done() {
                invariants::lemma_blind_closes(s);
                lemma_street_closes(s);
            }
        }
    }
}

/// In a hand that the engine dealt in order every seat has cards.
pub proof fn law_every_seat_has_cards(m: HandModel)
    requires
        account_laws::dealt_in_order(m),
    ensures
        showdown_laws::all_hold_cards(m),
{
    assert forall|k: int| 0 <= k < m.seats.len() && !(
    #[trigger] m.seats[k]).folded implies showdown_laws::cards_at(m.seats[k]) is Some by {
        assert(m.seats[k].hole is Plain);
    }
}

// ---- sitting down ----
/// A hand is set up as it is asked for: each player at their place with their
/// stack and seat number, in the hand, without cards; nothing bet, dealt or
/// reported.
pub proof fn law_players_sit_down(
    players: Seq<(PlayerId, Chips, u8)>,
    dealer_idx: usize,
    big_blind: Chips,
    small_blind: Chips,
    mode: HandMode,
    deck: DeckModel,
    deck_seed: DeckSeed,
    k: int,
)
    requires
        0 <= k < players.len(),
    ensures
        ({
            let m = start::fresh_hand(
                players,
                dealer_idx,
                big_blind,
                small_blind,
                mode,
                deck,
                deck_seed,
            );
            let s = m.seats[k];
            &&& m.seats.len() == players.len()
            &&& s.player_id == players[k].0
            &&& s.stack == players[k].1
            &&& s.starting_stack == players[k].1
            &&& s.seat == players[k].2
            &&& !s.folded
            &&& !s.all_in
            &&& mode == HandMode::Blind ==> s.hole is Opaque
            &&& mode == HandMode::Plaintext ==> s.hole is Empty
            &&& m.dealer_idx == dealer_idx
            &&& m.big_blind == big_blind
            &&& m.small_blind == small_blind
            &&& m.mode == mode
            &&& m.deck == deck
            &&& m.deck_seed == deck_seed
            &&& m.phase is NotStarted
            &&& m.forced_straddle is None
            &&& m.preflop_bring_in == big_blind
            &&& m.board.flop is None && m.board.turn is None && m.board.river is None
            &&& m.round is None
            &&& m.completed_pot.0 == 0
            &&& m.street_pots.len() == 0
            &&& m.actions.len() == 0
            &&& m.action_seq == 0
            &&& m.events.len() == 0
            &&& m.pending_board_street is None
            &&& m.finished_street is None
            &&& forall|id: u64| !#[trigger] m.last_action.contains_key(id)
        }),
{
}

/// The straddle is asked of the seat after the big blind, of no other, and
/// only where three sit down.
pub proof fn law_who_must_straddle(m: HandModel)
    requires
        m.seats.len() >= 2,
    ensures
        m.straddler() == if is_straddled(m) {
            Some(left_by(m, 3))
        } else {
            None
        },
{
    lemma_places(m);
}

/// The blinds sit on two places: heads-up on the button and beside it, else on
/// the two places after the button. With fewer than two players there are none.
pub proof fn law_where_the_blinds_sit(dealer_idx: int, n: int)
    requires
        dealer_idx >= 0,
    ensures
        ({
            let (small, big) = game::blind_seats(dealer_idx, n);
            let button = dealer_idx % n;
            &&& n < 2 ==> small == 0 && big == 0
            &&& n >= 2 ==> {
                &&& 0 <= small < n && 0 <= big < n
                &&& n == 2 ==> small == button
                &&& n > 2 && button < n - 1 ==> small == button + 1
                &&& n > 2 && button == n - 1 ==> small == 0
                &&& small < n - 1 ==> big == small + 1
                &&& small == n - 1 ==> big == 0
            }
        }),
{
    if n >= 2 {
        let d = dealer_idx % n;
        invariants::lemma_wrap(d, 1, n);
        invariants::lemma_wrap(d, 2, n);
    }
}

/// A hand that cannot deal two cards to each seat fails to begin: the forced
/// bets are on record and the deck is used up, but no chip moves and nobody
/// gets a card.
pub proof fn law_a_short_deck_stops_the_hand(m: HandModel)
    requires
        m.wf(),
        m.start_refusal() is None,
        !m.can_deal(),
    ensures
        ({
            let n = m.started().0;
            &&& m.started().1 == Err::<(), ActionError>(ActionError::HandFinished)
            &&& n.seats == m.seats
            &&& n.board == m.board
            &&& n.phase is NotStarted
            &&& n.round == m.round
            &&& n.deck.cards == m.deck.cards
            &&& n.deck.next == m.deck.cards.len()
            &&& n.events.len() == m.events.len() + 1
            &&& n.actions.len() == m.actions.len() + if is_straddled(m) {
                3int
            } else {
                2int
            }
        }),
{
    lemma_places(m);
}

/// Where the engine has too few cards for the next street, the street fails to
/// close: the chips are in the pots and the deck is used up, but no seat and no
/// card on the board changes.
pub proof fn law_a_short_deck_stops_the_street(m: HandModel)
    requires
        m.sound(),
        m.phase is Betting,
        m.mode == HandMode::Plaintext,
        showdown_laws::two_left(m),
        m.street() != Street::River,
        m.deck.cards.len() - m.deck.next < if m.street() == Street::Preflop {
            3int
        } else {
            1int
        },
    ensures
        ({
            let n = m.street_closed().0;
            &&& m.street_closed().1 == Err::<(), ActionError>(ActionError::HandFinished)
            &&& n.seats == m.seats
            &&& n.board == m.board
            &&& n.phase == m.phase
            &&& n.round is None
            &&& n.events == m.events
            &&& n.actions == m.actions
            &&& n.deck.cards == m.deck.cards
            &&& n.deck.next == m.deck.cards.len()
        }),
{
    showdown_laws::lemma_two_left(m);
    assert(m.banked().seats == m.seats);
}

} // verus!
