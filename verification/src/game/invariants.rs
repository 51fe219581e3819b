//! Why every step keeps a hand in order.

use crate::action::PlayerAction;
use crate::game::model;
use crate::game::start;
use crate::game;
use crate::hand::{HoleCards, Street};
use crate::player::{Chips, PlayerId};
use crate::round::RoundModel;
use crate::round;
use crate::seqs;
use crate::sidepot;
use super::model::HandModel;
use super::{HandSeat, Phase};
use vstd::prelude::*;

verus! {

/// In a hand of distinct players, each is found at the player's own seat.
pub proof fn lemma_own_seat(m: HandModel, k: int)
    requires
        seqs::distinct(model::seat_ids(m.seats)),
        0 <= k < m.seats.len(),
    ensures
        m.seat_index(m.seats[k].player_id) == k,
{
    let ids = model::seat_ids(m.seats);
    assert forall|j: int| 0 <= j < k implies !model::is_seat_of(m.seats[k].player_id)(
        #[trigger] m.seats[j],
    ) by {
        assert(ids[j] != ids[k]);
    }
    seqs::lemma_first_index_is(m.seats, k, model::is_seat_of(m.seats[k].player_id));
}

/// What the search for a seat finds.
pub proof fn lemma_seat_index(m: HandModel, pid: PlayerId)
    ensures
        0 <= m.seat_index(pid) <= m.seats.len(),
        m.seat_index(pid) < m.seats.len() ==> m.seats[m.seat_index(pid)].player_id == pid,
{
    seqs::lemma_first_index(m.seats, model::is_seat_of(pid));
}

/// The chips put in are part of the chips brought in, and so are the stacks.
pub proof fn lemma_committed(m: HandModel)
    requires
        forall|k: int|
            0 <= k < m.seats.len() ==> (#[trigger] m.seats[k]).stack.0
                <= m.seats[k].starting_stack.0,
    ensures
        0 <= m.committed() <= m.starting_total(),
        seqs::sum_of(m.seats, model::stack_chips()) + m.committed() == m.starting_total(),
        seqs::sum_of(model::seat_stakes(m.seats), sidepot::stake_amount()) == m.committed(),
        seqs::count_of(model::seat_stakes(m.seats), sidepot::stake_live()) == m.active_count(),
{
    seqs::lemma_sum_split(m.seats, model::start_chips(), model::stack_chips(), model::put_in());
    seqs::lemma_sum_nonneg(m.seats, model::put_in());
    seqs::lemma_sum_nonneg(m.seats, model::stack_chips());
    seqs::lemma_sum_same(
        model::seat_stakes(m.seats),
        m.seats,
        sidepot::stake_amount(),
        model::put_in(),
    );
    seqs::lemma_count_same(
        model::seat_stakes(m.seats),
        m.seats,
        sidepot::stake_live(),
        model::in_hand(),
    );
}

/// The pot of a hand can be counted.
pub proof fn lemma_pot_bounds(m: HandModel)
    requires
        m.sound(),
    ensures
        0 <= m.committed() <= u32::MAX,
        0 <= m.round_pot() <= u32::MAX,
        m.pot() <= u32::MAX,
        m.pot() == m.committed(),
{
    lemma_committed(m);
    if let Some(r) = m.round {
        round::lemma_round_stakes(r);
    }
}

/// Closing the books on a round keeps a hand in order.
pub proof fn lemma_banked(m: HandModel)
    requires
        m.sound(),
    ensures
        m.banked().sound(),
        m.banked().round is None,
        m.banked().seats == m.seats,
        m.banked().street() == m.street(),
        m.round matches Some(r) ==> sidepot::pots_total(
            sidepot::pots_of(round::round_stakes(r.players)),
        ) == r.pot(),
{
    lemma_pot_bounds(m);
    if let Some(r) = m.round {
        round::lemma_round_stakes(r);
        sidepot::law_pots_hold_all_stakes(round::round_stakes(r.players));
        seqs::lemma_sum_concat(
            m.street_pots,
            sidepot::pots_of(round::round_stakes(r.players)),
            sidepot::pot_amount(),
        );
    }
}

/// A round in which all players of a hand's next round are seated agrees with the hand.
pub proof fn lemma_round_opened(m: HandModel, street: Street)
    requires
        m.sound(),
        m.round is None,
        m.phase is Betting,
    ensures
        round::can_seat(m.next_entries()),
        0 <= m.next_first() < m.next_entries().len(),
        m.round_opened(street).sound(),
{
    let e = m.next_entries();
    let ids = model::seat_ids(m.seats);
    // Who is seated.
    assert forall|i: int, j: int|
        #![trigger m.seats[i], m.seats[j]]
        0 <= i < j < m.seats.len() implies model::seat_player()(m.seats[i]) != model::seat_player()(
        m.seats[j],
    ) by {
        assert(ids[i] != ids[j]);
    }
    seqs::lemma_pick_from(m.seats, model::in_hand(), model::seat_entry());
    seqs::lemma_count_bounds(m.seats, model::in_hand());
    let entry_ids = Seq::new(e.len(), |i: int| e[i].0);
    seqs::lemma_pick_distinct(m.seats, model::in_hand(), model::seat_player());
    lemma_entry_ids(m.seats);
    assert(entry_ids =~= seqs::pick(m.seats, model::in_hand(), model::seat_player()));
    // Their chips.
    lemma_committed(m);
    seqs::lemma_pick_sum(
        m.seats,
        model::in_hand(),
        model::seat_entry(),
        round::seat_chips(),
        model::stack_chips(),
    );
    assert(round::can_seat(e));
    seqs::lemma_first_index(
        e,
        model::is_entry_of(m.seats[m.first_active(m.left_of_button())].player_id),
    );
    // The round.
    round::lemma_seated(e);
    let fresh = RoundModel {
        players: round::seated(e),
        actor: m.next_first(),
        bet: Chips(0),
        last_full_raise: m.big_blind,
    };
    round::lemma_turned_wf(fresh, m.next_first());
    let o = m.round_opened(street);
    let r = o.round->Some_0;
    assert(r.players == round::seated(e));
    assert(r.pot() == 0);
    assert forall|i: int| 0 <= i < r.players.len() implies {
        let k = o.seat_index((#[trigger] r.players[i]).player_id);
        &&& k < o.seats.len()
        &&& o.seats[k].stack == r.players[i].stack
        &&& o.seats[k].folded == r.players[i].folded
    } by {
        assert(seqs::comes_from(m.seats, model::in_hand(), model::seat_entry(), e[i]));
        let k = choose|k: int|
            0 <= k < m.seats.len() && model::in_hand()(#[trigger] m.seats[k]) && model::seat_entry(
            )(m.seats[k])
                == e[i];
        lemma_own_seat(o, k);
    }
    assert forall|k: int| 0 <= k < o.seats.len(
    ) && !(#[trigger] o.seats[k]).folded implies r.index_of(
        o.seats[k].player_id,
    ) < r.players.len() by {
        seqs::lemma_pick_has(m.seats, k, model::in_hand(), model::seat_entry());
        let i = choose|i: int| 0 <= i < e.len() && e[i] == model::seat_entry()(m.seats[k]);
        seqs::lemma_first_index(r.players, round::is_player(o.seats[k].player_id));
        assert(round::is_player(o.seats[k].player_id)(r.players[i]));
    }
}

/// The players of the entries are the players of the seats that are in the hand.
proof fn lemma_entry_ids(seats: Seq<HandSeat>)
    ensures
        seqs::pick(seats, model::in_hand(), model::seat_entry()).len() == seqs::pick(
            seats,
            model::in_hand(),
            model::seat_player(),
        ).len(),
        forall|i: int|
            0 <= i < seqs::pick(
                seats,
                model::in_hand(),
                model::seat_entry(),
            ).len() ==> (#[trigger] seqs::pick(
                seats,
                model::in_hand(),
                model::seat_entry(),
            )[i]).0 == seqs::pick(seats, model::in_hand(), model::seat_player())[i],
    decreases seats.len(),
{
    if seats.len() > 0 {
        lemma_entry_ids(seats.drop_last());
    }
}

/// An allowed action keeps a hand in order.
pub proof fn lemma_acted(m: HandModel, pid: PlayerId, action: PlayerAction)
    requires
        m.sound(),
        m.refusal(pid, action) is None,
    ensures
        m.moved_by(pid, action).sound(),
        m.acted(pid, action).sound(),
        m.acted(pid, action) == (HandModel {
            events: m.acted(pid, action).events,
            ..m.moved_by(pid, action)
        }),
        m.acted(pid, action).phase == m.phase,
        m.acted(pid, action).round is Some,
        ({
            let r = m.round->Some_0;
            let i = r.index_of(pid);
            let k = m.seat_index(pid);
            let chips = r.chips_for(i, action);
            let moved = m.acted(pid, action);
            &&& 0 <= i < r.players.len()
            &&& 0 <= k < m.seats.len()
            &&& r.refusal(pid, action) is None
            &&& 0 <= chips <= m.seats[k].stack.0
            &&& m.seats[k].stack == r.players[i].stack
            &&& m.pot() + chips <= u32::MAX
            &&& moved.committed() == m.committed() + chips
            &&& moved.starting_total() == m.starting_total()
            &&& seqs::sum_of(moved.actions, model::record_chips()) == seqs::sum_of(
                m.actions,
                model::record_chips(),
            ) + chips
            &&& r.after(i, action).index_of(pid) == i
            &&& r.after(i, action).players.len() == r.players.len()
        }),
{
    let r = m.round->Some_0;
    let i = r.index_of(pid);
    let k = m.seat_index(pid);
    round::law_action_moves_own_chips(r, pid, action);
    round::lemma_chips_for(r, pid, action);
    lemma_seat_index(m, pid);
    seqs::lemma_first_index(r.players, round::is_player(pid));
    assert(r.players[i].player_id == pid);
    assert(m.seats[k].stack == r.players[i].stack);
    let n = m.moved_by(pid, action);
    let next = r.after(i, action);
    let s = n.seats[k];
    assert(n.round == Some(next));
    assert(n.seats == m.seats.update(k, s));
    seqs::lemma_sum_update(m.seats, k, s, model::put_in());
    seqs::lemma_sum_update(m.seats, k, s, model::start_chips());
    seqs::lemma_sum_push(m.actions, n.actions.last(), model::record_chips());
    assert(n.actions.drop_last() =~= m.actions);
    assert(n.actions == m.actions.push(n.actions.last()));
    assert(model::seat_ids(n.seats) =~= model::seat_ids(m.seats));
    lemma_committed(m);
    assert forall|j: int| 0 <= j < n.seats.len() implies (#[trigger] n.seats[j]).stack.0
        <= n.seats[j].starting_stack.0 by {
        if j != k {
            assert(n.seats[j] == m.seats[j]);
        }
    }
    lemma_committed(n);
    // The seats agree with the round.
    assert forall|q: PlayerId| n.seat_index(q) == m.seat_index(q) by {
        seqs::lemma_first_index_same(n.seats, m.seats, model::is_seat_of(q), model::is_seat_of(q));
    }
    assert forall|q: PlayerId| next.index_of(q) == r.index_of(q) by {
        seqs::lemma_first_index_same(
            next.players,
            r.players,
            round::is_player(q),
            round::is_player(q),
        );
    }
    assert forall|j: int| 0 <= j < next.players.len() implies {
        let h = n.seat_index((#[trigger] next.players[j]).player_id);
        &&& h < n.seats.len()
        &&& n.seats[h].stack == next.players[j].stack
        &&& n.seats[h].folded == next.players[j].folded
    } by {
        let q = r.players[j].player_id;
        assert(next.players[j].player_id == q);
        let h = m.seat_index(q);
        assert(h < m.seats.len() && m.seats[h].stack == r.players[j].stack);
        lemma_seat_index(m, q);
        if j != i {
            let ids = round::player_ids(r.players);
            assert(ids[i] != ids[j]);
            assert(h != k);
        }
    }
    assert forall|h: int| 0 <= h < n.seats.len(
    ) && !(#[trigger] n.seats[h]).folded implies next.index_of(
        n.seats[h].player_id,
    ) < next.players.len() by {
        if h != k {
            assert(n.seats[h] == m.seats[h]);
        }
    }
    // Somebody is left.
    let w = seqs::lemma_count_witness(next.players, round::not_folded());
    let h = n.seat_index(next.players[w].player_id);
    lemma_seat_index(n, next.players[w].player_id);
    seqs::lemma_count_positive(n.seats, h, model::in_hand());
}

/// The blinds sit at different places, and so does the straddler.
pub proof fn lemma_blind_places(m: HandModel)
    requires
        2 <= m.seats.len(),
    ensures
        0 <= m.blinds().0 < m.seats.len(),
        0 <= m.blinds().1 < m.seats.len(),
        m.blinds().0 != m.blinds().1,
        0 <= m.first_to_act() < m.seats.len(),
        m.straddler() matches Some(i) ==> 0 <= i < m.seats.len() && i != m.blinds().0 && i
            != m.blinds().1,
{
    let n = m.seats.len() as int;
    let d = m.dealer_idx as int % n;
    assert(0 <= d < n);
    assert((d + 1) % n == if d + 1 < n {
        d + 1
    } else {
        d + 1 - n
    }) by (nonlinear_arith)
        requires
            0 <= d < n,
            n >= 2,
    ;
    if n >= 3 {
        assert((d + 2) % n == if d + 2 < n {
            d + 2
        } else {
            d + 2 - n
        }) by (nonlinear_arith)
            requires
                0 <= d < n,
                n >= 3,
        ;
    }
    let b = m.blinds().1;
    assert((b + 1) % n == if b + 1 < n {
        b + 1
    } else {
        b + 1 - n
    }) by (nonlinear_arith)
        requires
            0 <= b < n,
            n >= 2,
    ;
    if let Some(i) = m.straddler() {
        assert((i + 1) % n == if i + 1 < n {
            i + 1
        } else {
            i + 1 - n
        }) by (nonlinear_arith)
            requires
                0 <= i < n,
                n >= 2,
        ;
    }
}

/// Posting by the player at place `k`, who has the chips, moves exactly those chips.
proof fn lemma_post_at(
    players: Seq<crate::round::PlayerState>,
    k: int,
    pid: PlayerId,
    amount: Chips,
)
    requires
        0 <= k < players.len(),
        players[k].player_id == pid,
        seqs::distinct(round::player_ids(players)),
        amount.0 <= players[k].stack.0,
        seqs::sum_of(players, round::all_chips()) <= u32::MAX,
    ensures
        seqs::first_index(players, round::is_player(pid)) == k,
        seqs::sum_of(round::posted(players, pid, amount), round::street_chips()) == seqs::sum_of(
            players,
            round::street_chips(),
        )
            + amount.0,
        forall|j: int|
            0 <= j < players.len() && j != k ==> #[trigger] round::posted(players, pid, amount)[j]
                == players[j],
{
    let ids = round::player_ids(players);
    assert forall|j: int| 0 <= j < k implies !round::is_player(pid)(#[trigger] players[j]) by {
        assert(ids[j] != ids[k]);
    }
    seqs::lemma_first_index_is(players, k, round::is_player(pid));
    round::lemma_posted(players, pid, amount);
}

/// The chips that the forced bets put in.
pub open spec fn posts_total(m: HandModel) -> int {
    let (sb, bb) = m.blinds();
    m.post_of(sb, m.small_blind) + m.post_of(bb, m.big_blind) + match m.straddler() {
        Some(i) => m.post_of(i, m.forced_straddle->Some_0) as int,
        None => 0,
    }
}

/// The forced bets of a hand that can begin move exactly the chips they say.
pub proof fn lemma_posts(m: HandModel)
    requires
        2 <= m.seats.len(),
        round::can_seat(m.entries()),
    ensures
        seqs::sum_of(
            round::all_posted(round::seated(m.entries()), m.posts()),
            round::street_chips(),
        ) == posts_total(m),
{
    lemma_blind_places(m);
    let (sb, bb) = m.blinds();
    let p0 = round::seated(m.entries());
    round::lemma_seated(m.entries());
    let posts = m.posts();
    let p1 = round::posted(p0, posts[0].0, posts[0].1);
    lemma_post_at(p0, sb, posts[0].0, posts[0].1);
    round::lemma_posted(p0, posts[0].0, posts[0].1);
    let p2 = round::posted(p1, posts[1].0, posts[1].1);
    lemma_post_at(p1, bb, posts[1].0, posts[1].1);
    round::lemma_posted(p1, posts[1].0, posts[1].1);
    let none = Seq::<(PlayerId, Chips)>::empty();
    assert(round::all_posted(p0, none) == p0);
    assert(seq![posts[0]].drop_last() =~= none);
    assert(round::all_posted(p0, seq![posts[0]]) == p1);
    let two = seq![posts[0], posts[1]];
    assert(two.drop_last() =~= seq![posts[0]]);
    assert(round::all_posted(p0, two) == p2);
    match m.straddler() {
        Some(i) => {
            assert(posts.drop_last() =~= two);
            lemma_post_at(p2, i, posts[2].0, posts[2].1);
        },
        None => {
            assert(posts =~= two);
        },
    }
}

/// Opening the first round of a hand that can begin puts the hand in order.
/// `m` is the hand with its forced bets on record and its cards dealt.
pub proof fn lemma_preflop_opened(m: HandModel)
    requires
        2 <= m.seats.len(),
        m.seats.len() + 2 <= u32::MAX,
        seqs::distinct(model::seat_ids(m.seats)),
        m.deck.wf(),
        m.starting_total() <= u32::MAX,
        m.completed_pot.0 == 0,
        m.street_pots.len() == 0,
        forall|k: int|
            0 <= k < m.seats.len() ==> (#[trigger] m.seats[k]).stack == m.seats[k].starting_stack
                && !m.seats[k].folded,
    ensures
        round::can_seat(m.entries()),
        0 <= m.first_to_act() < m.seats.len(),
        m.preflop_opened().sound(),
        m.preflop_opened().round is Some,
        m.preflop_opened().round->Some_0 == round::opened_preflop(
            m.entries(),
            m.first_to_act(),
            m.posts(),
            m.bring_in(),
        ),
        m.preflop_opened().phase == Phase::Betting(Street::Preflop),
        m.preflop_opened().committed() == posts_total(m),
{
    let e = m.entries();
    lemma_blind_places(m);
    assert(Seq::new(e.len(), |i: int| e[i].0) =~= model::seat_ids(m.seats));
    seqs::lemma_sum_same(e, m.seats, round::seat_chips(), model::start_chips());
    assert(round::can_seat(e));
    round::lemma_seated(e);
    lemma_posts(m);
    let after = round::all_posted(round::seated(e), m.posts());
    round::lemma_all_posted(round::seated(e), m.posts());
    round::lemma_top_stake(after);
    let o = m.preflop_opened();
    let r = o.round->Some_0;
    let top = round::top_stake(after);
    let bet = if m.bring_in().0 >= top {
        m.bring_in()
    } else {
        Chips(top as u32)
    };
    let fresh = RoundModel {
        players: after,
        actor: m.first_to_act(),
        bet,
        last_full_raise: bet,
    };
    assert forall|i: int| 0 <= i < fresh.players.len(
    ) implies (#[trigger] fresh.players[i]).contributed.0
        <= fresh.bet.0 by {
        assert(round::same_player(after[i], round::seated(e)[i]));
    }
    round::lemma_turned_wf(fresh, m.first_to_act());
    assert(r.players == after);
    assert(round::player_ids(after) =~= model::seat_ids(m.seats));
    // Each seat is brought in line with its own place in the round.
    assert forall|k: int| 0 <= k < m.seats.len() implies r.index_of(
        (#[trigger] m.seats[k]).player_id,
    ) == k by {
        let ids = round::player_ids(after);
        assert forall|j: int| 0 <= j < k implies !round::is_player(m.seats[k].player_id)(
            #[trigger] r.players[j],
        ) by {
            assert(ids[j] != ids[k]);
        }
        assert(ids[k] == m.seats[k].player_id);
        seqs::lemma_first_index_is(r.players, k, round::is_player(m.seats[k].player_id));
    }
    assert forall|k: int| 0 <= k < m.seats.len() implies (#[trigger] o.seats[k]).stack
        == r.players[k].stack && o.seats[k].player_id == r.players[k].player_id
        && !o.seats[k].folded && !r.players[k].folded && o.seats[k].starting_stack
        == m.seats[k].starting_stack && o.seats[k].starting_stack.0 == r.players[k].stack.0
        + r.players[k].contributed.0 by {
        assert(r.index_of(m.seats[k].player_id) == k);
        assert(round::same_player(after[k], round::seated(e)[k]));
        let ids = round::player_ids(after);
        assert(ids[k] == m.seats[k].player_id);
    }
    assert(model::seat_ids(o.seats) =~= model::seat_ids(m.seats));
    seqs::lemma_sum_same(o.seats, r.players, model::put_in(), round::street_chips());
    seqs::lemma_sum_same(o.seats, m.seats, model::start_chips(), model::start_chips());
    assert forall|i: int| 0 <= i < r.players.len() implies {
        let k = o.seat_index((#[trigger] r.players[i]).player_id);
        &&& k < o.seats.len()
        &&& o.seats[k].stack == r.players[i].stack
        &&& o.seats[k].folded == r.players[i].folded
    } by {
        lemma_own_seat(o, i);
        assert(o.seats[i].player_id == r.players[i].player_id);
    }
    assert forall|k: int| 0 <= k < o.seats.len(
    ) && !(#[trigger] o.seats[k]).folded implies r.index_of(
        o.seats[k].player_id,
    ) < r.players.len() by {
        assert(r.index_of(m.seats[k].player_id) == k);
    }
    assert(!o.seats[0].folded);
    seqs::lemma_count_positive(o.seats, 0, model::in_hand());
}


/// Going `i` places on from `start` round a table of `n` places.
pub proof fn lemma_wrap(start: int, i: int, n: int)
    requires
        0 <= start < n,
        0 <= i <= n,
    ensures
        (start + i) % n == if start + i < n {
            start + i
        } else if start + i < 2 * n {
            start + i - n
        } else {
            0
        },
        0 <= (start + i) % n < n,
{
    assert((start + i) % n == if start + i < n {
        start + i
    } else if start + i < 2 * n {
        start + i - n
    } else {
        0
    }) by (nonlinear_arith)
        requires
            0 <= start < n,
            0 <= i <= n,
    ;
}

/// What a longer sequence contains.
pub proof fn lemma_push_contains<A>(s: Seq<A>, a: A, x: A)
    ensures
        s.push(a).contains(x) == (s.contains(x) || a == x),
{
    if s.contains(x) {
        let k = choose|k: int| 0 <= k < s.len() && s[k] == x;
        assert(s.push(a)[k] == x);
    }
    assert(s.push(a)[s.len() as int] == a);
}

/// Where the engine does not deal, closing a street cannot fail.
pub proof fn lemma_blind_closes(m: HandModel)
    requires
        m.mode == super::HandMode::Blind,
    ensures
        m.street_closed().1 == Ok::<(), crate::action::ActionError>(()),
{
}

/// Seats that differ only in their cards are found alike and hold the same chips.
proof fn lemma_cards_changed(m: HandModel, n: HandModel, i: int)
    requires
        m.sound(),
        0 <= i < m.seats.len(),
        n.seats == m.seats.update(i, HandSeat { hole: n.seats[i].hole, ..m.seats[i] }),
    ensures
        model::seat_ids(n.seats) == model::seat_ids(m.seats),
        n.committed() == m.committed(),
        n.starting_total() == m.starting_total(),
        n.active_count() == m.active_count(),
        forall|pid: PlayerId| n.seat_index(pid) == m.seat_index(pid),
{
    assert(model::seat_ids(n.seats) =~= model::seat_ids(m.seats));
    seqs::lemma_sum_same(n.seats, m.seats, model::put_in(), model::put_in());
    seqs::lemma_sum_same(n.seats, m.seats, model::start_chips(), model::start_chips());
    seqs::lemma_count_same(n.seats, m.seats, model::in_hand(), model::in_hand());
    assert forall|pid: PlayerId| n.seat_index(pid) == m.seat_index(pid) by {
        seqs::lemma_first_index_same(
            n.seats,
            m.seats,
            model::is_seat_of(pid),
            model::is_seat_of(pid),
        );
    }
}

/// Showing cards keeps a hand in order.
pub proof fn lemma_revealed(m: HandModel, pid: PlayerId, h: HoleCards)
    requires
        m.sound(),
        m.phase is Done,
        m.seat_index(pid) < m.seats.len(),
    ensures
        m.revealed(pid, h).sound(),
{
    let n = m.revealed(pid, h);
    lemma_seat_index(m, pid);
    lemma_cards_changed(m, n, m.seat_index(pid));
}

/// Giving known cards keeps a hand in order.
pub proof fn lemma_overridden(m: HandModel, pid: PlayerId, h: HoleCards)
    requires
        m.sound(),
    ensures
        m.overridden(pid, h).sound(),
{
    let n = m.overridden(pid, h);
    lemma_seat_index(m, pid);
    if m.seat_index(pid) < m.seats.len() {
        lemma_cards_changed(m, n, m.seat_index(pid));
        if let Some(r) = m.round {
            lemma_agrees_alike(m, n, r, m.seat_index(pid));
        }
    }
}

/// A round that agrees with a hand agrees with it after a change of cards.
proof fn lemma_agrees_alike(m: HandModel, n: HandModel, r: RoundModel, i: int)
    requires
        m.sound(),
        m.agrees_with(r),
        0 <= i < m.seats.len(),
        n.seats == m.seats.update(i, HandSeat { hole: n.seats[i].hole, ..m.seats[i] }),
        forall|pid: PlayerId| n.seat_index(pid) == m.seat_index(pid),
    ensures
        n.agrees_with(r),
{
    assert forall|j: int| 0 <= j < r.players.len() implies {
        let k = n.seat_index((#[trigger] r.players[j]).player_id);
        &&& k < n.seats.len()
        &&& n.seats[k].stack == r.players[j].stack
        &&& n.seats[k].folded == r.players[j].folded
    } by {
        lemma_seat_index(m, r.players[j].player_id);
    }
    assert forall|k: int| 0 <= k < n.seats.len(
    ) && !(#[trigger] n.seats[k]).folded implies r.index_of(
        n.seats[k].player_id,
    ) < r.players.len() by {
        assert(!m.seats[k].folded);
    }
}


/// Closing a street moves no chips of the seats and records no action.
pub proof fn lemma_street_closed(m: HandModel)
    requires
        m.phase is Betting,
    ensures
        m.street_closed().0.seats == m.seats,
        m.street_closed().0.actions == m.actions,
        m.street_closed().0.action_seq == m.action_seq,
        m.street_closed().0.last_action == m.last_action,
        m.street_closed().0.mode == m.mode,
        !(m.street_closed().0.phase is NotStarted),
    decreases 3 - m.street().order(),
{
    let b = m.banked();
    if let Some(s) = model::street_after(b.street()) {
        let o = b.board_advanced(s).round_opened(s).state_reported();
        lemma_street_closed(o);
    }
}


/// Two hands that are the same but for their history.
pub open spec fn alike(a: HandModel, b: HandModel) -> bool {
    a.without_history() == b.without_history()
}

/// Hands that are the same but for their history close a street alike.
pub proof fn lemma_closed_alike(a: HandModel, b: HandModel)
    requires
        alike(a, b),
        a.phase is Betting,
    ensures
        alike(a.street_closed().0, b.street_closed().0),
        a.street_closed().1 == b.street_closed().1,
    decreases 3 - a.street().order(),
{
    let x = a.without_history();
    let y = b.without_history();
    assert(x.seats == a.seats && y.seats == b.seats);
    assert(x.round == a.round && y.round == b.round);
    assert(x.phase == a.phase && y.phase == b.phase);
    assert(x.deck == a.deck && y.deck == b.deck);
    assert(x.board == a.board && y.board == b.board);
    assert(x.mode == a.mode && y.mode == b.mode);
    assert(x.dealer_idx == a.dealer_idx && y.dealer_idx == b.dealer_idx);
    assert(x.big_blind == a.big_blind && y.big_blind == b.big_blind);
    assert(x.finished_street == a.finished_street && y.finished_street == b.finished_street);
    let p = a.banked();
    let q = b.banked();
    assert(p.without_history() =~= q.without_history());
    if let Some(s) = model::street_after(p.street()) {
        if p.active_count() > 1 && !(p.mode == super::HandMode::Plaintext && p.deck.left()
            < game::street_cards(s)) {
            let m = p.board_advanced(s);
            let n = q.board_advanced(s);
            assert(m.without_history() =~= n.without_history());
            assert(m.seats_from(m.left_of_button()) =~= n.seats_from(n.left_of_button()));
            let c = m.round_opened(s);
            let d = n.round_opened(s);
            assert(c.without_history() =~= d.without_history());
            assert(c.state_reported().without_history() =~= c.without_history());
            assert(d.state_reported().without_history() =~= d.without_history());
            lemma_closed_alike(c.state_reported(), d.state_reported());
        }
    }
    assert(p.finished().without_history() =~= q.finished().without_history());
}

/// Hands that are the same but for their history take an action alike.
pub proof fn lemma_applied_alike(a: HandModel, b: HandModel, pid: PlayerId, action: PlayerAction)
    requires
        alike(a, b),
    ensures
        alike(a.applied(pid, action).0, b.applied(pid, action).0),
        a.applied(pid, action).1 == b.applied(pid, action).1,
{
    let x = a.without_history();
    let y = b.without_history();
    assert(x.seats == a.seats && y.seats == b.seats);
    assert(x.round == a.round && y.round == b.round);
    assert(x.phase == a.phase && y.phase == b.phase);
    assert(a.refusal(pid, action) == b.refusal(pid, action));
    if a.refusal(pid, action) is None {
        let p = a.acted(pid, action);
        let q = b.acted(pid, action);
        assert(p.without_history() =~= q.without_history()) by {
            assert(x.action_seq == a.action_seq && y.action_seq == b.action_seq);
        }
        assert(p.round == p.without_history().round && q.round == q.without_history().round);
        if p.round->Some_0.done() {
            lemma_closed_alike(p, q);
        }
    }
}


/// Closing a street keeps a hand in order.
pub proof fn lemma_street_closed_sound(m: HandModel)
    requires
        m.sound(),
        m.phase is Betting,
    ensures
        m.street_closed().0.sound(),
        m.wf() ==> m.street_closed().0.wf(),
    decreases 3 - m.street().order(),
{
    lemma_street_closed(m);
    lemma_banked(m);
    let b = m.banked();
    if let Some(s) = model::street_after(b.street()) {
        if b.active_count() > 1 && !(b.mode == super::HandMode::Plaintext && b.deck.left()
            < game::street_cards(s)) {
            let a = b.board_advanced(s);
            assert(a.sound());
            lemma_round_opened(a, s);
            let o = a.round_opened(s).state_reported();
            assert(o.sound());
            lemma_street_closed_sound(o);
        }
    }
}

/// Taking an action, or failing to, keeps a hand in order.
pub proof fn lemma_applied(m: HandModel, pid: PlayerId, action: PlayerAction)
    requires
        m.sound(),
    ensures
        m.applied(pid, action).0.sound(),
        m.wf() ==> m.applied(pid, action).0.wf(),
        m.applied(pid, action).0.starting_total() == m.starting_total(),
{
    if m.refusal(pid, action) is None {
        lemma_acted(m, pid, action);
        let n = m.acted(pid, action);
        lemma_street_closed(n);
        if n.round->Some_0.done() {
            lemma_street_closed_sound(n);
        }
    }
}

/// Beginning a hand, or failing to, keeps it in order.
pub proof fn lemma_started(m: HandModel)
    requires
        m.wf(),
    ensures
        m.started().0.wf(),
        m.started().0.starting_total() == m.starting_total(),
{
    if m.start_refusal() is None {
        start::lemma_recorded(m);
        if !m.can_deal() {
            start::lemma_failed_start(m);
        } else {
            start::lemma_dealt(m);
            let d = m.announced().blinds_recorded().holes_dealt();
            lemma_preflop_opened(d);
            let p = d.preflop_opened();
            start::lemma_opening_reported(p, m.opening_posts());
            let o = p.opening_reported(m.opening_posts());
            assert(o.wf());
            seqs::lemma_sum_same(p.seats, d.seats, model::start_chips(), model::start_chips());
            lemma_street_closed(o);
            if o.round->Some_0.done() {
                lemma_street_closed_sound(o);
            }
        }
    }
}

} // verus!
