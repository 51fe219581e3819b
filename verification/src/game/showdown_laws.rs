//! Who gets the chips of a hand that is over, told by the seats and the cards.

use crate::eval::HandRank;
use crate::eval;
use crate::game::invariants;
use crate::game::laws;
use crate::game::model;
use crate::game::outcome;
use crate::game::pots;
use crate::hand::{BoardModel, HoleCards};
use crate::player::PlayerId;
use crate::seqs;
use crate::sidepot::{PotModel, Stake};
use crate::sidepot;
use super::model::HandModel;
use super::{
    BlindFinishError, HandMode, HandSeat, HoleSlot, PotResultModel, PotWinner, ResultModel,
    ShowdownModel,
};
use vstd::prelude::*;

verus! {

// ---- what the laws speak of ----
/// What a seat has put in.
pub open spec fn stake_of(s: HandSeat) -> int {
    s.starting_stack.0 - s.stack.0
}

/// What each seat has put in, and whether it is in the hand.
pub open spec fn own_stakes(m: HandModel) -> Seq<Stake> {
    Seq::new(
        m.seats.len(),
        |k: int|
            Stake {
                player_id: m.seats[k].player_id,
                amount: stake_of(m.seats[k]) as u32,
                live: !m.seats[k].folded,
            },
    )
}

/// The cards of a seat, dealt or shown.
pub open spec fn cards_at(s: HandSeat) -> Option<HoleCards> {
    match s.hole {
        HoleSlot::Plain(h) => Some(h),
        HoleSlot::Revealed(h) => Some(h),
        _ => None,
    }
}

/// The rank of the cards of seat `k` with the board.
pub open spec fn rank_at(m: HandModel, k: int) -> HandRank {
    eval::rank_on_board(cards_at(m.seats[k])->Some_0, m.board)
}

/// How many places seat `k` is to the left of the seat left of the button.
pub open spec fn steps_left(m: HandModel, k: int) -> int {
    let n = m.seats.len() as int;
    let d = m.dealer_idx as int % n;
    if k > d {
        k - d - 1
    } else {
        k + n - d - 1
    }
}

/// Seat `k` has not folded, has put in as much as `cap`, and shows a hand.
pub open spec fn contests_pot(
    m: HandModel,
    cap: int,
    shows: spec_fn(HandSeat) -> bool,
    k: int,
) -> bool {
    &&& 0 <= k < m.seats.len()
    &&& !m.seats[k].folded
    &&& stake_of(m.seats[k]) >= cap
    &&& shows(m.seats[k])
}

/// Seat `k` contests the pot, and nobody who contests it has a better hand.
pub open spec fn unbeaten(
    m: HandModel,
    cap: int,
    shows: spec_fn(HandSeat) -> bool,
    k: int,
) -> bool {
    &&& contests_pot(m, cap, shows, k)
    &&& forall|j: int| #[trigger]
        contests_pot(m, cap, shows, j) ==> !rank_at(m, k).loses_to(rank_at(m, j))
}

/// The player sits in the hand.
pub open spec fn sits(m: HandModel, pid: PlayerId) -> bool {
    exists|k: int| 0 <= k < m.seats.len() && (#[trigger] m.seats[k]).player_id == pid
}

/// Player `p` sits closer to the left of the button than player `q`.
pub open spec fn closer(m: HandModel, p: PlayerId, q: PlayerId) -> bool {
    exists|k: int, l: int|
        #![trigger m.seats[k], m.seats[l]]
        0 <= k < m.seats.len() && 0 <= l < m.seats.len() && m.seats[k].player_id == p
            && m.seats[l].player_id == q && steps_left(m, k) < steps_left(m, l)
}

/// The player gets a share of the pot.
pub open spec fn shares_in(r: PotResultModel, pid: PlayerId) -> bool {
    exists|w: int| 0 <= w < r.winners.len() && (#[trigger] r.winners[w]).player_id == pid
}

/// The shares go to the seats `who`, each once, and to nobody else.
pub open spec fn goes_to(m: HandModel, r: PotResultModel, who: spec_fn(int) -> bool) -> bool {
    &&& forall|k: int|
        0 <= k < m.seats.len() ==> shares_in(r, (#[trigger] m.seats[k]).player_id) == who(k)
    &&& forall|w: int|
        0 <= w < r.winners.len() ==> sits(m, (#[trigger] r.winners[w]).player_id)
    &&& forall|v: int, w: int|
        #![trigger r.winners[v], r.winners[w]]
        0 <= v < w < r.winners.len() ==> r.winners[v].player_id != r.winners[w].player_id
}

/// The shares are the whole pot, as even as can be; who gets a chip more than
/// another sits closer to the left of the button.
pub open spec fn shared_evenly(m: HandModel, r: PotResultModel) -> bool {
    &&& seqs::sum_of(r.winners, |w: PotWinner| w.amount_won.0 as int) == r.amount.0
    &&& forall|v: int, w: int|
        #![trigger r.winners[v], r.winners[w]]
        0 <= v < r.winners.len() && 0 <= w < r.winners.len() ==> r.winners[v].amount_won.0
            <= r.winners[w].amount_won.0 + 1
    &&& forall|v: int, w: int|
        #![trigger r.winners[v], r.winners[w]]
        0 <= v < r.winners.len() && 0 <= w < r.winners.len() && r.winners[v].amount_won.0
            > r.winners[w].amount_won.0 ==> closer(
            m,
            r.winners[v].player_id,
            r.winners[w].player_id,
        )
}

/// A pot is settled by the hands that are shown: what nobody matched goes back;
/// otherwise the best hands among the players left who have put in as much as
/// its cap share it. Where none of them shows a hand, it goes to the best hands
/// of all, if not showing forfeits, else back.
pub open spec fn pot_settled(
    m: HandModel,
    pot: PotModel,
    i: int,
    r: PotResultModel,
    shows: spec_fn(HandSeat) -> bool,
    forfeits: bool,
) -> bool {
    let cap = pot.cap.0 as int;
    &&& r.index == i
    &&& r.amount == pot.amount
    &&& pot.eligible.len() > 0 ==> r.eligible_player_ids == pot.eligible
    &&& shared_evenly(m, r)
    &&& if pot.refund_to.len() > 0 {
        r.is_refund && goes_to(m, r, |k: int| pot.refund_to.contains(m.seats[k].player_id))
    } else if exists|k: int| contests_pot(m, cap, shows, k) {
        !r.is_refund && goes_to(m, r, |k: int| unbeaten(m, cap, shows, k))
    } else if forfeits && exists|k: int| contests_pot(m, 0, shows, k) {
        !r.is_refund && goes_to(m, r, |k: int| unbeaten(m, 0, shows, k))
    } else {
        r.is_refund && goes_to(m, r, |k: int| pot.eligible.contains(m.seats[k].player_id))
    }
}

/// What `pid` gets of all the pots.
pub open spec fn gains(r: ResultModel, pid: PlayerId) -> int {
    seqs::sum_of(
        r.pots,
        |p: PotResultModel|
            seqs::sum_of(
                p.winners,
                |w: PotWinner|
                    if w.player_id == pid {
                        w.amount_won.0 as int
                    } else {
                        0
                    },
            ),
    )
}

/// The chips are paid out as the pots say, and the rest is told as it is.
pub open spec fn paid_out(m: HandModel, r: ResultModel) -> bool {
    &&& forall|k: int|
        0 <= k < m.seats.len() ==> {
            let pid = (#[trigger] m.seats[k]).player_id;
            &&& r.chips_awarded.contains_key(pid.0)
            &&& r.chips_awarded[pid.0] == gains(r, pid)
            &&& r.final_stacks.contains_key(pid.0)
            &&& r.final_stacks[pid.0] == m.seats[k].stack.0 + gains(r, pid)
        }
    &&& forall|n: u64| #[trigger] r.chips_awarded.contains_key(n) ==> sits(m, PlayerId(n))
    &&& forall|n: u64| #[trigger] r.final_stacks.contains_key(n) ==> sits(m, PlayerId(n))
    &&& r.board == m.board
    &&& r.actions == m.actions
    &&& r.deck_seed == m.deck_seed
}

/// The entry is the hand of seat `k`.
pub open spec fn is_entry(m: HandModel, k: int, e: ShowdownModel) -> bool {
    &&& e.player_id == m.seats[k].player_id
    &&& e.hole_cards == cards_at(m.seats[k])->Some_0
    &&& e.rank == rank_at(m, k)
    &&& e.rank_name == e.rank.label()@
}

/// The hand of seat `k` is listed.
pub open spec fn is_listed(m: HandModel, shown: Seq<ShowdownModel>, k: int) -> bool {
    exists|e: int| 0 <= e < shown.len() && is_entry(m, k, #[trigger] shown[e])
}

/// The entry is the hand of a seat that passes.
pub open spec fn comes_of(
    m: HandModel,
    e: ShowdownModel,
    shows: spec_fn(HandSeat) -> bool,
) -> bool {
    exists|k: int|
        0 <= k < m.seats.len() && shows(#[trigger] m.seats[k]) && is_entry(m, k, e)
}

/// The hands that are shown are all listed, each once with its cards and its
/// rank, the better before the worse.
pub open spec fn lists_hands(
    m: HandModel,
    shown: Seq<ShowdownModel>,
    shows: spec_fn(HandSeat) -> bool,
) -> bool {
    &&& forall|k: int|
        0 <= k < m.seats.len() && shows(#[trigger] m.seats[k]) ==> is_listed(m, shown, k)
    &&& forall|e: int| 0 <= e < shown.len() ==> comes_of(m, #[trigger] shown[e], shows)
    &&& forall|d: int, e: int|
        #![trigger shown[d], shown[e]]
        0 <= d < e < shown.len() ==> shown[d].player_id != shown[e].player_id
            && !shown[d].rank.loses_to(shown[e].rank)
}

/// A hand is settled by the hands that are shown.
pub open spec fn hand_settled(
    m: HandModel,
    pots: Seq<PotModel>,
    r: ResultModel,
    shows: spec_fn(HandSeat) -> bool,
    forfeits: bool,
) -> bool {
    &&& sidepot::layered_right(pots, own_stakes(m))
    &&& r.pots.len() == pots.len()
    &&& forall|i: int|
        0 <= i < pots.len() ==> pot_settled(m, pots[i], i, #[trigger] r.pots[i], shows, forfeits)
    &&& paid_out(m, r)
    &&& lists_hands(m, r.showdown, shows)
}

// ---- the seats and their hands ----
pub proof fn lemma_own_stakes(m: HandModel)
    requires
        m.sound(),
    ensures
        own_stakes(m) == model::seat_stakes(m.seats),
        sidepot::layered_right(m.every_pot(), own_stakes(m)),
        m.active_count() > 0 ==> sidepot::layered_right(m.hand_pots(), own_stakes(m)),
        m.active_count() > 0 ==> m.hand_pots() == m.every_pot(),
{
    let stakes = model::seat_stakes(m.seats);
    assert(own_stakes(m) =~= stakes);
    assert(sidepot::stake_ids(stakes) =~= model::seat_ids(m.seats));
    invariants::lemma_committed(m);
    invariants::lemma_pot_bounds(m);
    sidepot::law_pots_are_the_layers_of_the_stakes(stakes);
    if m.active_count() > 0 {
        let k = seqs::lemma_count_witness(m.seats, model::in_hand());
        assert(stakes[k].live);
        seqs::lemma_count_positive(stakes, k, sidepot::stake_live());
    }
}

/// Who contests a pot of the hand.
proof fn lemma_eligible(m: HandModel, pots: Seq<PotModel>, i: int)
    requires
        m.sound(),
        sidepot::layered_right(pots, own_stakes(m)),
        0 <= i < pots.len(),
    ensures
        forall|k: int|
            0 <= k < m.seats.len() ==> pots[i].eligible.contains(
                (#[trigger] m.seats[k]).player_id,
            ) == (!m.seats[k].folded && stake_of(m.seats[k]) >= pots[i].cap.0),
{
    let stakes = own_stakes(m);
    assert(sidepot::lies_right(pots, i, 0, stakes));
    assert forall|k: int| 0 <= k < m.seats.len() implies pots[i].eligible.contains(
        (#[trigger] m.seats[k]).player_id,
    ) == (!m.seats[k].folded && stake_of(m.seats[k]) >= pots[i].cap.0) by {
        assert(stakes[k].player_id == m.seats[k].player_id);
        assert(m.seats[k].stack.0 <= m.seats[k].starting_stack.0);
    }
}

/// Only seats in the hand pass whose cards are known.
pub open spec fn proper_test(m: HandModel, keep: spec_fn(HandSeat) -> bool) -> bool {
    forall|k: int|
        0 <= k < m.seats.len() && keep(#[trigger] m.seats[k]) ==> !m.seats[k].folded && cards_at(
            m.seats[k],
        ) is Some
}

/// The seats that pass.
pub open spec fn passing(m: HandModel, keep: spec_fn(HandSeat) -> bool) -> spec_fn(int) -> bool {
    |k: int| keep(m.seats[k])
}

/// The seats that pass and have a part in a pot for `eligible`.
pub open spec fn passing_in(
    m: HandModel,
    keep: spec_fn(HandSeat) -> bool,
    eligible: Seq<PlayerId>,
) -> spec_fn(int) -> bool {
    |k: int| keep(m.seats[k]) && eligible.contains(m.seats[k].player_id)
}

/// The hands are those of the seats `of`.
pub open spec fn hands_are_of(
    m: HandModel,
    hands: Seq<(PlayerId, HoleCards)>,
    of: spec_fn(int) -> bool,
) -> bool {
    &&& forall|k: int|
        #![trigger m.seats[k]]
        0 <= k < m.seats.len() && of(k) ==> hands.contains(hand_at(m, k))
    &&& forall|h: int| 0 <= h < hands.len() ==> is_hand_among(m, #[trigger] hands[h], of)
}

/// The hand is that of one of the seats `of`.
pub open spec fn is_hand_among(
    m: HandModel,
    hand: (PlayerId, HoleCards),
    of: spec_fn(int) -> bool,
) -> bool {
    exists|k: int|
        #![trigger m.seats[k]]
        0 <= k < m.seats.len() && of(k) && hand == hand_at(m, k)
}

/// The hands of the seats that pass.
pub open spec fn hands_of(m: HandModel, keep: spec_fn(HandSeat) -> bool) -> Seq<
    (PlayerId, HoleCards),
> {
    seqs::pick(m.seats, keep, outcome::known_hand())
}

/// The hand of seat `k`.
pub open spec fn hand_at(m: HandModel, k: int) -> (PlayerId, HoleCards) {
    (m.seats[k].player_id, cards_at(m.seats[k])->Some_0)
}

proof fn lemma_same_seat(m: HandModel, j: int, k: int)
    requires
        m.sound(),
        0 <= j < m.seats.len(),
        0 <= k < m.seats.len(),
        m.seats[j].player_id == m.seats[k].player_id,
    ensures
        j == k,
{
    let ids = model::seat_ids(m.seats);
    assert(ids[j] == ids[k]);
}

/// The hands are those of the seats that pass.
proof fn lemma_hands(m: HandModel, keep: spec_fn(HandSeat) -> bool)
    requires
        m.sound(),
        proper_test(m, keep),
    ensures
        pots::hands_of_players(hands_of(m, keep), model::seat_ids(m.seats)),
        hands_are_of(m, hands_of(m, keep), passing(m, keep)),
{
    let hands = hands_of(m, keep);
    let of = passing(m, keep);
    outcome::lemma_hands_of_seats(m, keep);
    seqs::lemma_pick_from(m.seats, keep, outcome::known_hand());
    assert forall|k: int|
        #![trigger m.seats[k]]
        0 <= k < m.seats.len() && of(k) implies hands.contains(hand_at(m, k)) by {
        assert(keep(m.seats[k]));
        seqs::lemma_pick_has(m.seats, k, keep, outcome::known_hand());
        assert(outcome::known_hand()(m.seats[k]) == hand_at(m, k));
    }
    assert forall|h: int| 0 <= h < hands.len() implies is_hand_among(
        m,
        #[trigger] hands[h],
        of,
    ) by {
        assert(seqs::comes_from(m.seats, keep, outcome::known_hand(), hands[h]));
        let k = choose|k: int|
            0 <= k < m.seats.len() && keep(#[trigger] m.seats[k]) && outcome::known_hand()(
                m.seats[k],
            ) == hands[h];
        assert(of(k) && hands[h] == hand_at(m, k));
    }
}

/// A hand that nobody beats leads.
proof fn lemma_unbeaten_leads(hands: Seq<(PlayerId, HoleCards)>, board: BoardModel, h: int)
    requires
        0 <= h < hands.len(),
        forall|j: int|
            0 <= j < hands.len() ==> !eval::rank_on_board(hands[h].1, board).loses_to(
                eval::rank_on_board((#[trigger] hands[j]).1, board),
            ),
    ensures
        pots::leaders(eval::ranking(hands, board)).contains(hands[h].0),
{
    let all = eval::rated(hands, board);
    let ranked = eval::ranking(hands, board);
    let best = ranked[0].1;
    eval::law_ranking_sorted_and_stable(hands, board, best);
    assert(all.contains(all[h]));
    assert(ranked.contains(all[h]));
    let b = choose|b: int| 0 <= b < ranked.len() && ranked[b] == all[h];
    assert(ranked.contains(ranked[0]));
    assert(all.contains(ranked[0]));
    let z = choose|z: int| 0 <= z < all.len() && all[z] == ranked[0];
    assert(!eval::rank_on_board(hands[h].1, board).loses_to(
        eval::rank_on_board(hands[z].1, board),
    ));
    if b > 0 {
        assert(!ranked[0].1.loses_to(ranked[b].1));
    }
    eval::law_ranks_are_in_a_line(best, ranked[b].1, best);
    assert(ranked[b].1 == best);
    seqs::lemma_first_index(ranked, pots::other_rank(best));
    let f = seqs::first_index(ranked, pots::other_rank(best));
    if f <= b {
        assert(pots::other_rank(best)(ranked[f]));
        if f < b {
            assert(!ranked[f].1.loses_to(ranked[b].1));
            if f > 0 {
                assert(!ranked[0].1.loses_to(ranked[f].1));
            }
            eval::law_ranks_are_in_a_line(best, ranked[f].1, best);
        }
        assert(false);
    }
    let top = pots::leaders(ranked);
    assert(top[b] == hands[h].0);
}

/// None of the seats `of` beats seat `k`.
pub open spec fn tops(m: HandModel, of: spec_fn(int) -> bool, k: int) -> bool {
    &&& of(k)
    &&& forall|j: int|
        #![trigger m.seats[j]]
        0 <= j < m.seats.len() && of(j) ==> !rank_at(m, k).loses_to(rank_at(m, j))
}

/// Who leads the hands of some seats.
proof fn lemma_leaders_are_unbeaten(
    m: HandModel,
    hands: Seq<(PlayerId, HoleCards)>,
    of: spec_fn(int) -> bool,
    k: int,
)
    requires
        m.sound(),
        hands.len() > 0,
        forall|i: int, j: int|
            #![trigger hands[i], hands[j]]
            0 <= i < j < hands.len() ==> hands[i].0 != hands[j].0,
        hands_are_of(m, hands, of),
        0 <= k < m.seats.len(),
    ensures
        pots::leaders(eval::ranking(hands, m.board)).contains(m.seats[k].player_id) == tops(
            m,
            of,
            k,
        ),
{
    let top = pots::leaders(eval::ranking(hands, m.board));
    let pid = m.seats[k].player_id;
    pots::lemma_leaders(hands, m.board);
    if top.contains(pid) {
        let t = choose|t: int| 0 <= t < top.len() && top[t] == pid;
        assert(pots::holds_best(hands, m.board, top[t]));
        let i = choose|i: int|
            0 <= i < hands.len() && (#[trigger] hands[i]).0 == pid && forall|j: int|
                0 <= j < hands.len() ==> !eval::rank_on_board(hands[i].1, m.board).loses_to(
                    eval::rank_on_board((#[trigger] hands[j]).1, m.board),
                );
        assert(is_hand_among(m, hands[i], of));
        let s = choose|j: int|
            #![trigger m.seats[j]]
            0 <= j < m.seats.len() && of(j) && hands[i] == hand_at(m, j);
        lemma_same_seat(m, s, k);
        assert forall|j: int|
            #![trigger m.seats[j]]
            0 <= j < m.seats.len() && of(j) implies !rank_at(m, k).loses_to(rank_at(m, j)) by {
            assert(hands.contains(hand_at(m, j)));
            let x = choose|x: int| 0 <= x < hands.len() && hands[x] == hand_at(m, j);
            assert(!eval::rank_on_board(hands[i].1, m.board).loses_to(
                eval::rank_on_board(hands[x].1, m.board),
            ));
        }
    } else if tops(m, of, k) {
        assert(hands.contains(hand_at(m, k)));
        let h = choose|h: int| 0 <= h < hands.len() && hands[h] == hand_at(m, k);
        assert forall|j: int| 0 <= j < hands.len() implies !eval::rank_on_board(
            hands[h].1,
            m.board,
        ).loses_to(eval::rank_on_board((#[trigger] hands[j]).1, m.board)) by {
            assert(is_hand_among(m, hands[j], of));
            let s = choose|s: int|
                #![trigger m.seats[s]]
                0 <= s < m.seats.len() && of(s) && hands[j] == hand_at(m, s);
            assert(!rank_at(m, k).loses_to(rank_at(m, s)));
        }
        lemma_unbeaten_leads(hands, m.board, h);
        assert(false);
    }
}

/// The hands that contest a pot are those of the seats that pass and have a part in it.
proof fn lemma_pot_hands(m: HandModel, keep: spec_fn(HandSeat) -> bool, eligible: Seq<PlayerId>)
    requires
        m.sound(),
        proper_test(m, keep),
        seqs::distinct(eligible),
    ensures
        hands_are_of(
            m,
            pots::contenders(eligible, hands_of(m, keep)),
            passing_in(m, keep, eligible),
        ),
{
    let hands = hands_of(m, keep);
    let c = pots::contenders(eligible, hands);
    let of = passing_in(m, keep, eligible);
    let all = passing(m, keep);
    lemma_hands(m, keep);
    pots::lemma_contenders(eligible, hands);
    assert forall|k: int|
        #![trigger m.seats[k]]
        0 <= k < m.seats.len() && of(k) implies c.contains(hand_at(m, k)) by {
        let pid = m.seats[k].player_id;
        assert(all(k));
        assert(hands.contains(hand_at(m, k)));
        let x = choose|x: int| 0 <= x < hands.len() && hands[x] == hand_at(m, k);
        seqs::lemma_first_index(hands, pots::is_hand_of(pid));
        let f = seqs::first_index(hands, pots::is_hand_of(pid));
        assert(pots::is_hand_of(pid)(hands[x]));
        assert(f <= x);
        assert(pots::is_hand_of(pid)(hands[f]));
        if f < x {
            assert(hands[f].0 != hands[x].0);
        }
        let e = choose|e: int| 0 <= e < eligible.len() && eligible[e] == pid;
        assert(pots::shows(hands)(eligible[e]));
        seqs::lemma_pick_has(eligible, e, pots::shows(hands), pots::hand_among(hands));
        assert(pots::hand_among(hands)(eligible[e]) == hand_at(m, k));
    }
    assert forall|h: int| 0 <= h < c.len() implies is_hand_among(m, #[trigger] c[h], of) by {
        assert(eligible.contains(c[h].0) && hands.contains(c[h]));
        let x = choose|x: int| 0 <= x < hands.len() && hands[x] == c[h];
        assert(is_hand_among(m, hands[x], all));
        let k = choose|k: int|
            #![trigger m.seats[k]]
            0 <= k < m.seats.len() && all(k) && hands[x] == hand_at(m, k);
        assert(of(k) && c[h] == hand_at(m, k));
    }
}

// ---- a pot ----
/// Who gets a pot at a showdown, by the seats.
proof fn lemma_recipients(
    m: HandModel,
    pots: Seq<PotModel>,
    i: int,
    keep: spec_fn(HandSeat) -> bool,
    forfeiters: Set<u64>,
    forfeits: bool,
)
    requires
        m.sound(),
        proper_test(m, keep),
        sidepot::layered_right(pots, own_stakes(m)),
        0 <= i < pots.len(),
        forfeits ==> forall|k: int|
            0 <= k < m.seats.len() && !(#[trigger] m.seats[k]).folded && !keep(m.seats[k])
                ==> forfeiters.contains(m.seats[k].player_id.0),
        !forfeits ==> forfeiters == Set::<u64>::empty(),
    ensures
        ({
            let to = pots::showdown_recipients(
                pots[i],
                hands_of(m, keep),
                m.board,
                forfeiters,
            );
            let cap = pots[i].cap.0 as int;
            &&& pots::can_share(to.0, model::seat_ids(m.seats))
            &&& if pots[i].refund_to.len() > 0 {
                to == (pots[i].refund_to, true)
            } else if exists|k: int| contests_pot(m, cap, keep, k) {
                !to.1 && forall|k: int|
                    0 <= k < m.seats.len() ==> to.0.contains((#[trigger] m.seats[k]).player_id)
                        == unbeaten(m, cap, keep, k)
            } else if forfeits && exists|k: int| contests_pot(m, 0, keep, k) {
                !to.1 && forall|k: int|
                    0 <= k < m.seats.len() ==> to.0.contains((#[trigger] m.seats[k]).player_id)
                        == unbeaten(m, 0, keep, k)
            } else {
                to == (pots[i].eligible, true)
            }
        }),
{
    let pot = pots[i];
    let cap = pot.cap.0 as int;
    let ids = model::seat_ids(m.seats);
    let hands = hands_of(m, keep);
    let to = pots::showdown_recipients(pot, hands, m.board, forfeiters);
    assert(sidepot::stake_ids(own_stakes(m)) =~= ids);
    assert(sidepot::settleable(pot, ids));
    lemma_hands(m, keep);
    lemma_eligible(m, pots, i);
    lemma_pot_hands(m, keep, pot.eligible);
    pots::lemma_showdown_recipients(pot, hands, m.board, forfeiters, ids);
    pots::lemma_contenders(pot.eligible, hands);
    let c = pots::contenders(pot.eligible, hands);
    eval::lemma_ranking_len(c, m.board);
    eval::lemma_ranking_len(hands, m.board);
    let in_pot = passing_in(m, keep, pot.eligible);
    let any = passing(m, keep);
    if pot.refund_to.len() == 0 {
        if exists|k: int| contests_pot(m, cap, keep, k) {
            let w = choose|k: int| contests_pot(m, cap, keep, k);
            assert(pot.eligible.contains(m.seats[w].player_id));
            assert(in_pot(w));
            assert(c.contains(hand_at(m, w)));
            assert forall|k: int| 0 <= k < m.seats.len() implies to.0.contains(
                (#[trigger] m.seats[k]).player_id,
            ) == unbeaten(m, cap, keep, k) by {
                lemma_leaders_are_unbeaten(m, c, in_pot, k);
                lemma_unbeaten_same(m, cap, keep, in_pot, k);
            }
        } else {
            if c.len() > 0 {
                assert(is_hand_among(m, c[0], in_pot));
                let j = choose|j: int|
                    #![trigger m.seats[j]]
                    0 <= j < m.seats.len() && in_pot(j) && c[0] == hand_at(m, j);
                assert(contests_pot(m, cap, keep, j));
            }
            let e = pot.eligible[0];
            assert(ids.contains(e));
            let s = choose|s: int| 0 <= s < ids.len() && ids[s] == e;
            assert(m.seats[s].player_id == e);
            assert(!contests_pot(m, cap, keep, s));
            assert(pot.eligible.contains(e));
            assert(!m.seats[s].folded && !keep(m.seats[s]));
            if forfeits {
                assert(pots::in_set(forfeiters)(e));
                seqs::lemma_count_positive(pot.eligible, 0, pots::in_set(forfeiters));
                if exists|k: int| contests_pot(m, 0, keep, k) {
                    let w = choose|k: int| contests_pot(m, 0, keep, k);
                    assert(any(w));
                    assert(hands.contains(hand_at(m, w)));
                    assert forall|k: int| 0 <= k < m.seats.len() implies to.0.contains(
                        (#[trigger] m.seats[k]).player_id,
                    ) == unbeaten(m, 0, keep, k) by {
                        lemma_leaders_are_unbeaten(m, hands, any, k);
                        assert forall|j: int| #![trigger m.seats[j]] 0 <= j < m.seats.len(
                        ) implies any(j) == contests_pot(m, 0, keep, j) by {
                            assert(m.seats[j].stack.0 <= m.seats[j].starting_stack.0);
                        }
                        lemma_unbeaten_same(m, 0, keep, any, k);
                    }
                } else if hands.len() > 0 {
                    assert(is_hand_among(m, hands[0], any));
                    let j = choose|j: int|
                        #![trigger m.seats[j]]
                        0 <= j < m.seats.len() && any(j) && hands[0] == hand_at(m, j);
                    assert(m.seats[j].stack.0 <= m.seats[j].starting_stack.0);
                    assert(contests_pot(m, 0, keep, j));
                }
            } else {
                lemma_none_in_empty(pot.eligible);
            }
        }
    }
}

proof fn lemma_none_in_empty(ids: Seq<PlayerId>)
    ensures
        seqs::count_of(ids, pots::in_set(Set::<u64>::empty())) == 0,
    decreases ids.len(),
{
    if ids.len() > 0 {
        lemma_none_in_empty(ids.drop_last());
    }
}

proof fn lemma_unbeaten_same(
    m: HandModel,
    cap: int,
    keep: spec_fn(HandSeat) -> bool,
    of: spec_fn(int) -> bool,
    k: int,
)
    requires
        0 <= k < m.seats.len(),
        forall|j: int|
            #![trigger m.seats[j]]
            0 <= j < m.seats.len() ==> of(j) == contests_pot(m, cap, keep, j),
    ensures
        unbeaten(m, cap, keep, k) == tops(m, of, k),
{
    assert(of(k) == contests_pot(m, cap, keep, k)) by {
        assert(m.seats[k] == m.seats[k]);
    }
    if tops(m, of, k) {
        assert forall|j: int| #[trigger] contests_pot(m, cap, keep, j) implies !rank_at(
            m,
            k,
        ).loses_to(rank_at(m, j)) by {
            assert(m.seats[j] == m.seats[j]);
            assert(of(j));
        }
    }
    if unbeaten(m, cap, keep, k) {
        assert forall|j: int| #![trigger m.seats[j]] 0 <= j < m.seats.len() && of(
            j,
        ) implies !rank_at(m, k).loses_to(rank_at(m, j)) by {
            assert(contests_pot(m, cap, keep, j));
        }
    }
}

/// How a pot is shared out among its recipients, by the seats.
proof fn lemma_shared(
    m: HandModel,
    i: int,
    pot: PotModel,
    to: (Seq<PlayerId>, bool),
    who: spec_fn(int) -> bool,
)
    requires
        m.sound(),
        pots::can_share(to.0, model::seat_ids(m.seats)),
        forall|k: int|
            0 <= k < m.seats.len() ==> to.0.contains((#[trigger] m.seats[k]).player_id) == who(k),
    ensures
        goes_to(m, pots::shared_out(i, pot, to.0, to.1, outcome::button_order(m)), who),
        shared_evenly(m, pots::shared_out(i, pot, to.0, to.1, outcome::button_order(m))),
{
    let order = outcome::button_order(m);
    let r = pots::shared_out(i, pot, to.0, to.1, order);
    let ids = model::seat_ids(m.seats);
    let amount = pot.amount.0 as int;
    assert(r.winners.len() == to.0.len());
    assert forall|w: int| 0 <= w < r.winners.len() implies (#[trigger] r.winners[w]).player_id
        == to.0[w] by {}
    assert forall|k: int| 0 <= k < m.seats.len() implies shares_in(
        r,
        (#[trigger] m.seats[k]).player_id,
    ) == who(k) by {
        let pid = m.seats[k].player_id;
        if to.0.contains(pid) {
            let w = choose|w: int| 0 <= w < to.0.len() && to.0[w] == pid;
            assert(r.winners[w].player_id == pid);
        }
        if shares_in(r, pid) {
            let w = choose|w: int|
                0 <= w < r.winners.len() && (#[trigger] r.winners[w]).player_id == pid;
            assert(to.0[w] == pid);
        }
    }
    assert forall|w: int| 0 <= w < r.winners.len() implies sits(
        m,
        (#[trigger] r.winners[w]).player_id,
    ) by {
        assert(ids.contains(to.0[w]));
        let k = choose|k: int| 0 <= k < ids.len() && ids[k] == to.0[w];
        assert(m.seats[k].player_id == r.winners[w].player_id);
    }
    pots::law_shares_add_up(amount, to.0, order);
    seqs::lemma_sum_same(
        r.winners,
        r.winners,
        |w: PotWinner| w.amount_won.0 as int,
        pots::won(),
    );
    assert forall|v: int| 0 <= v < r.winners.len() implies (#[trigger] r.winners[v]).amount_won.0
        == pots::share(amount, to.0, order, to.0[v]) by {
        lemma_share_fits(amount, to.0, order, to.0[v]);
    }
    assert forall|v: int, w: int|
        #![trigger r.winners[v], r.winners[w]]
        0 <= v < r.winners.len() && 0 <= w < r.winners.len() implies r.winners[v].amount_won.0
        <= r.winners[w].amount_won.0 + 1 by {
        pots::law_odd_chips_go_left_of_button(amount, to.0, order, v, w);
    }
    assert forall|v: int, w: int|
        #![trigger r.winners[v], r.winners[w]]
        0 <= v < r.winners.len() && 0 <= w < r.winners.len() && r.winners[v].amount_won.0
            > r.winners[w].amount_won.0 implies closer(
        m,
        r.winners[v].player_id,
        r.winners[w].player_id,
    ) by {
        pots::law_odd_chips_go_left_of_button(amount, to.0, order, v, w);
        assert(sits(m, r.winners[v].player_id) && sits(m, r.winners[w].player_id));
        let k = choose|k: int|
            0 <= k < m.seats.len() && (#[trigger] m.seats[k]).player_id == r.winners[v].player_id;
        let l = choose|l: int|
            0 <= l < m.seats.len() && (#[trigger] m.seats[l]).player_id == r.winners[w].player_id;
        lemma_order_is_steps(m, k);
        lemma_order_is_steps(m, l);
        assert(k != l);
        assert(steps_left(m, k) != steps_left(m, l));
    }
}

proof fn lemma_share_fits(amount: int, ids: Seq<PlayerId>, order: Map<u64, usize>, pid: PlayerId)
    requires
        0 <= amount <= u32::MAX,
        ids.len() > 0,
        seqs::distinct(ids),
        ids.contains(pid),
    ensures
        0 <= pots::share(amount, ids, order, pid) <= u32::MAX,
{
    pots::lemma_share(amount, ids, order, pid);
}

/// The place in the order for odd chips is the distance from the button.
proof fn lemma_order_is_steps(m: HandModel, k: int)
    requires
        m.sound(),
        0 <= k < m.seats.len(),
    ensures
        pots::order_key(outcome::button_order(m), m.seats[k].player_id) == steps_left(m, k),
{
    let n = m.seats.len() as int;
    let x = steps_left(m, k);
    let left = m.left_of_button();
    let d = m.dealer_idx as int % n;
    assert(0 <= d < n);
    invariants::lemma_wrap(d, 1, n);
    assert(0 <= left < n);
    invariants::lemma_wrap(left, x, n);
    assert((left + x) % n == k);
    laws::law_button_order_counts_from_the_left(m, x);
}

// ---- the whole outcome ----
/// What the outcome says of the chips, by the seats.
proof fn lemma_paid_out(
    m: HandModel,
    results: Seq<PotResultModel>,
    showdown: Seq<ShowdownModel>,
    order: Seq<PlayerId>,
)
    requires
        m.sound(),
        outcome::pays_out(results, m.committed(), model::seat_ids(m.seats)),
    ensures
        paid_out(m, outcome::finalized(m, results, showdown, order)),
{
    let r = outcome::finalized(m, results, showdown, order);
    assert forall|k: int| 0 <= k < m.seats.len() implies {
        let pid = (#[trigger] m.seats[k]).player_id;
        &&& r.chips_awarded.contains_key(pid.0)
        &&& r.chips_awarded[pid.0] == gains(r, pid)
        &&& r.final_stacks.contains_key(pid.0)
        &&& r.final_stacks[pid.0] == m.seats[k].stack.0 + gains(r, pid)
    } by {
        let pid = m.seats[k].player_id;
        lemma_gains(r, pid);
        outcome::lemma_seat_map(m.seats, outcome::final_chips(results), k);
        outcome::lemma_seat_map(m.seats, outcome::winnings(results), k);
        outcome::lemma_final_fits(m, results, k);
    }
    assert forall|n: u64| #[trigger] r.chips_awarded.contains_key(n) implies sits(
        m,
        PlayerId(n),
    ) by {
        lemma_map_keys(m.seats, outcome::winnings(results), n);
        let k = choose|k: int| 0 <= k < m.seats.len() && (#[trigger] m.seats[k]).player_id.0 == n;
        assert(m.seats[k].player_id == PlayerId(n));
    }
    assert forall|n: u64| #[trigger] r.final_stacks.contains_key(n) implies sits(
        m,
        PlayerId(n),
    ) by {
        lemma_map_keys(m.seats, outcome::final_chips(results), n);
        let k = choose|k: int| 0 <= k < m.seats.len() && (#[trigger] m.seats[k]).player_id.0 == n;
        assert(m.seats[k].player_id == PlayerId(n));
    }
}

proof fn lemma_map_keys(seats: Seq<HandSeat>, f: spec_fn(HandSeat) -> u32, n: u64)
    ensures
        outcome::seat_map(seats, f).contains_key(n) ==> exists|k: int|
            0 <= k < seats.len() && (#[trigger] seats[k]).player_id.0 == n,
    decreases seats.len(),
{
    if seats.len() > 0 {
        let t = seats.drop_last();
        lemma_map_keys(t, f, n);
        if outcome::seat_map(t, f).contains_key(n) {
            let k = choose|k: int| 0 <= k < t.len() && (#[trigger] t[k]).player_id.0 == n;
            assert(seats[k].player_id.0 == n);
        } else if outcome::seat_map(seats, f).contains_key(n) {
            assert(seats[seats.len() - 1].player_id.0 == n);
        }
    }
}

proof fn lemma_gains(r: ResultModel, pid: PlayerId)
    ensures
        gains(r, pid) == outcome::awarded(r.pots, pid),
{
    let f = |p: PotResultModel|
        seqs::sum_of(
            p.winners,
            |w: PotWinner|
                if w.player_id == pid {
                    w.amount_won.0 as int
                } else {
                    0
                },
        );
    assert forall|i: int| 0 <= i < r.pots.len() implies f(#[trigger] r.pots[i])
        == outcome::pot_award(pid)(r.pots[i]) by {
        let ws = r.pots[i].winners;
        seqs::lemma_sum_same(
            ws,
            ws,
            |w: PotWinner|
                if w.player_id == pid {
                    w.amount_won.0 as int
                } else {
                    0
                },
            outcome::award_of(pid),
        );
    }
    seqs::lemma_sum_same(r.pots, r.pots, f, outcome::pot_award(pid));
}

/// What the showdown lists, by the seats.
proof fn lemma_lists(m: HandModel, keep: spec_fn(HandSeat) -> bool)
    requires
        m.sound(),
        proper_test(m, keep),
    ensures
        lists_hands(m, outcome::showdown_of(hands_of(m, keep), m.board), keep),
{
    let hands = hands_of(m, keep);
    let shown = outcome::showdown_of(hands, m.board);
    let ranked = eval::ranking(hands, m.board);
    let all = eval::rated(hands, m.board);
    lemma_hands(m, keep);
    eval::law_ranking_sorted_and_stable(hands, m.board, HandRank::HighCard(0));
    let id_of = |p: (PlayerId, HandRank)| p.0;
    assert forall|i: int, j: int| #![trigger all[i], all[j]] 0 <= i < j < all.len() implies id_of(
        all[i],
    ) != id_of(all[j]) by {
        assert(hands[i].0 != hands[j].0);
    }
    seqs::lemma_arranged_distinct(all, eval::stronger(), id_of);
    assert forall|e: int| 0 <= e < shown.len() implies comes_of(m, #[trigger] shown[e], keep) by {
        lemma_entry(m, keep, e);
    }
    assert forall|k: int| 0 <= k < m.seats.len() && keep(#[trigger] m.seats[k]) implies is_listed(
        m,
        shown,
        k,
    ) by {
        assert(passing(m, keep)(k));
        assert(hands.contains(hand_at(m, k)));
        let h = choose|h: int| 0 <= h < hands.len() && hands[h] == hand_at(m, k);
        assert(all.contains(all[h]));
        assert(ranked.contains(all[h]));
        let e = choose|e: int| 0 <= e < ranked.len() && ranked[e] == all[h];
        assert(shown[e].player_id == m.seats[k].player_id);
        assert(comes_of(m, shown[e], keep));
        let s = choose|s: int|
            0 <= s < m.seats.len() && keep(#[trigger] m.seats[s]) && is_entry(m, s, shown[e]);
        lemma_same_seat(m, s, k);
    }
    assert forall|d: int, e: int| #![trigger shown[d], shown[e]] 0 <= d < e < shown.len(
    ) implies shown[d].player_id != shown[e].player_id && !shown[d].rank.loses_to(
        shown[e].rank,
    ) by {
        assert(id_of(ranked[d]) != id_of(ranked[e]));
        assert(!ranked[d].1.loses_to(ranked[e].1));
    }
}

proof fn lemma_entry(m: HandModel, keep: spec_fn(HandSeat) -> bool, e: int)
    requires
        m.sound(),
        proper_test(m, keep),
        0 <= e < outcome::showdown_of(hands_of(m, keep), m.board).len(),
    ensures
        comes_of(m, outcome::showdown_of(hands_of(m, keep), m.board)[e], keep),
{
    let hands = hands_of(m, keep);
    let ranked = eval::ranking(hands, m.board);
    let all = eval::rated(hands, m.board);
    let of = passing(m, keep);
    lemma_hands(m, keep);
    eval::law_ranking_sorted_and_stable(hands, m.board, HandRank::HighCard(0));
    assert(ranked.contains(ranked[e]));
    assert(all.contains(ranked[e]));
    let h = choose|h: int| 0 <= h < all.len() && all[h] == ranked[e];
    let pid = ranked[e].0;
    seqs::lemma_first_index(hands, pots::is_hand_of(pid));
    let f = seqs::first_index(hands, pots::is_hand_of(pid));
    assert(pots::is_hand_of(pid)(hands[h]));
    assert(pots::is_hand_of(pid)(hands[f]));
    if f < h {
        assert(hands[f].0 != hands[h].0);
    }
    assert(f == h);
    assert(is_hand_among(m, hands[h], of));
    let k = choose|k: int|
        #![trigger m.seats[k]]
        0 <= k < m.seats.len() && of(k) && hands[h] == hand_at(m, k);
    assert(keep(m.seats[k]));
    assert(is_entry(m, k, outcome::showdown_of(hands, m.board)[e]));
}

/// A showdown settles the pots by the hands that are shown.
proof fn lemma_showdown_settles(
    m: HandModel,
    keep: spec_fn(HandSeat) -> bool,
    forfeiters: Set<u64>,
    forfeits: bool,
)
    requires
        m.sound(),
        proper_test(m, keep),
        m.active_count() > 0,
        forfeits ==> forall|k: int|
            0 <= k < m.seats.len() && !(#[trigger] m.seats[k]).folded && !keep(m.seats[k])
                ==> forfeiters.contains(m.seats[k].player_id.0),
        !forfeits ==> forfeiters == Set::<u64>::empty(),
    ensures
        hand_settled(
            m,
            m.hand_pots(),
            outcome::showdown_result(m, hands_of(m, keep), forfeiters),
            keep,
            forfeits,
        ),
{
    let pots = m.hand_pots();
    let hands = hands_of(m, keep);
    let ids = model::seat_ids(m.seats);
    let order = outcome::button_order(m);
    let outs = pots::showdown_outcomes(pots, hands, m.board, order, forfeiters);
    let r = outcome::showdown_result(m, hands, forfeiters);
    lemma_own_stakes(m);
    lemma_hands(m, keep);
    outcome::lemma_hand_pots(m);
    assert forall|i: int| 0 <= i < pots.len() implies (#[trigger] outs[i]) is Some
        && outcome::paid(outs[i]->Some_0, pots[i].amount.0 as int, ids) by {
        assert(sidepot::settleable(pots[i], ids));
        pots::lemma_showdown_recipients(pots[i], hands, m.board, forfeiters, ids);
        outcome::lemma_outcome_paid(
            i,
            pots[i],
            pots::showdown_recipients(pots[i], hands, m.board, forfeiters),
            order,
            ids,
        );
    }
    outcome::lemma_all_paid(pots, outs, ids);
    outcome::lemma_showdown_pays(m, hands, forfeiters);
    lemma_paid_out(
        m,
        seqs::flatten(outs),
        outcome::showdown_of(hands, m.board),
        outcome::show_order(m),
    );
    lemma_lists(m, keep);
    assert forall|i: int| 0 <= i < pots.len() implies pot_settled(
        m,
        pots[i],
        i,
        #[trigger] r.pots[i],
        keep,
        forfeits,
    ) by {
        assert(r.pots[i] == outs[i]->Some_0);
        lemma_pot_settled(m, pots, i, keep, forfeiters, forfeits);
    }
}

proof fn lemma_pot_settled(
    m: HandModel,
    pots: Seq<PotModel>,
    i: int,
    keep: spec_fn(HandSeat) -> bool,
    forfeiters: Set<u64>,
    forfeits: bool,
)
    requires
        m.sound(),
        proper_test(m, keep),
        sidepot::layered_right(pots, own_stakes(m)),
        0 <= i < pots.len(),
        forfeits ==> forall|k: int|
            0 <= k < m.seats.len() && !(#[trigger] m.seats[k]).folded && !keep(m.seats[k])
                ==> forfeiters.contains(m.seats[k].player_id.0),
        !forfeits ==> forfeiters == Set::<u64>::empty(),
    ensures
        ({
            let to = pots::showdown_recipients(
                pots[i],
                hands_of(m, keep),
                m.board,
                forfeiters,
            );
            pot_settled(
                m,
                pots[i],
                i,
                pots::shared_out(i, pots[i], to.0, to.1, outcome::button_order(m)),
                keep,
                forfeits,
            )
        }),
{
    let pot = pots[i];
    let cap = pot.cap.0 as int;
    let to = pots::showdown_recipients(pot, hands_of(m, keep), m.board, forfeiters);
    lemma_recipients(m, pots, i, keep, forfeiters, forfeits);
    if pot.refund_to.len() > 0 {
        lemma_shared(m, i, pot, to, |k: int| pot.refund_to.contains(m.seats[k].player_id));
    } else if exists|k: int| contests_pot(m, cap, keep, k) {
        lemma_shared(m, i, pot, to, |k: int| unbeaten(m, cap, keep, k));
    } else if forfeits && exists|k: int| contests_pot(m, 0, keep, k) {
        lemma_shared(m, i, pot, to, |k: int| unbeaten(m, 0, keep, k));
    } else {
        lemma_shared(m, i, pot, to, |k: int| pot.eligible.contains(m.seats[k].player_id));
    }
}

// ---- the laws ----
/// The test for a seat that has not folded.
pub open spec fn is_in() -> spec_fn(HandSeat) -> bool {
    |s: HandSeat| !s.folded
}

/// The test for a seat that has not folded and has shown its cards.
pub open spec fn has_revealed() -> spec_fn(HandSeat) -> bool {
    |s: HandSeat| !s.folded && s.hole is Revealed
}

/// Every player left has cards that the engine knows.
pub open spec fn all_hold_cards(m: HandModel) -> bool {
    forall|k: int|
        0 <= k < m.seats.len() && !(#[trigger] m.seats[k]).folded ==> cards_at(m.seats[k]) is Some
}

/// In a hand that the engine dealt and that is over, every player left takes
/// part in the showdown, all in or not. Each pot that somebody matched goes to
/// those of the players left who have put in as much as its cap and whose hands
/// no other of them beats, in even shares; what nobody matched goes back.
pub proof fn law_best_hands_win(m: HandModel)
    requires
        m.wf(),
        m.phase is Done,
        m.mode == HandMode::Plaintext,
        all_hold_cards(m),
    ensures
        hand_settled(m, m.hand_pots(), outcome::dealt_result(m), is_in(), false),
{
    seqs::lemma_count_bounds(m.seats, model::in_hand());
    lemma_picked_alike(m.seats, outcome::can_show(), is_in(), outcome::known_hand());
    lemma_showdown_settles(m, is_in(), Set::empty(), false);
}

/// Tests that agree on all items pick alike.
proof fn lemma_picked_alike<A, B>(
    s: Seq<A>,
    f: spec_fn(A) -> bool,
    g: spec_fn(A) -> bool,
    h: spec_fn(A) -> B,
)
    requires
        forall|i: int| 0 <= i < s.len() ==> f(#[trigger] s[i]) == g(s[i]),
    ensures
        seqs::pick(s, f, h) == seqs::pick(s, g, h),
    decreases s.len(),
{
    if s.len() > 0 {
        let t = s.drop_last();
        assert forall|i: int| 0 <= i < t.len() implies f(#[trigger] t[i]) == g(t[i]) by {
            assert(t[i] == s[i]);
        }
        lemma_picked_alike(t, f, g, h);
        assert(f(s[s.len() - 1]) == g(s[s.len() - 1]));
    }
}

/// Two players are left.
pub open spec fn two_left(m: HandModel) -> bool {
    exists|i: int, j: int|
        #![trigger m.seats[i], m.seats[j]]
        0 <= i < j < m.seats.len() && !m.seats[i].folded && !m.seats[j].folded
}

/// Seat `k` is the first of the players left who has not shown.
pub open spec fn first_silent(m: HandModel, k: int) -> bool {
    &&& 0 <= k < m.seats.len()
    &&& !m.seats[k].folded
    &&& !(m.seats[k].hole is Revealed)
    &&& forall|j: int|
        0 <= j < k && !(#[trigger] m.seats[j]).folded ==> m.seats[j].hole is Revealed
}

/// The player of seat `k` has not shown.
pub open spec fn silent_error(m: HandModel, k: int) -> BlindFinishError {
    BlindFinishError::MissingReveal { player_id: m.seats[k].player_id, seat: m.seats[k].seat }
}

pub proof fn lemma_two_left(m: HandModel)
    ensures
        two_left(m) == (m.active_count() >= 2),
{
    if two_left(m) {
        let (i, j) = choose|i: int, j: int|
            #![trigger m.seats[i], m.seats[j]]
            0 <= i < j < m.seats.len() && !m.seats[i].folded && !m.seats[j].folded;
        seqs::lemma_count_two(m.seats, i, j, model::in_hand());
    } else if m.active_count() >= 2 {
        let (i, j) = seqs::lemma_count_pair(m.seats, model::in_hand());
        assert(!m.seats[i].folded && !m.seats[j].folded);
    }
}

proof fn lemma_silent(m: HandModel, k: int)
    requires
        first_silent(m, k),
    ensures
        outcome::missing_reveal(m) == silent_error(m, k),
        seqs::count_of(m.seats, outcome::has_not_shown()) > 0,
{
    assert forall|j: int| 0 <= j < k implies !outcome::has_not_shown()(#[trigger] m.seats[j]) by {}
    assert(outcome::has_not_shown()(m.seats[k]));
    seqs::lemma_first_index_is(m.seats, k, outcome::has_not_shown());
    seqs::lemma_count_positive(m.seats, k, outcome::has_not_shown());
}

proof fn lemma_silent_set(seats: Seq<HandSeat>, k: int)
    requires
        0 <= k < seats.len(),
        !seats[k].folded,
        !(seats[k].hole is Revealed),
    ensures
        outcome::silent_players(seats).contains(seats[k].player_id.0),
    decreases seats.len(),
{
    if k < seats.len() - 1 {
        lemma_silent_set(seats.drop_last(), k);
    }
}

/// A hand dealt elsewhere that is over, with two or more players left: where
/// each of them has shown, the hands settle it; otherwise it is refused for the
/// first who has not.
pub proof fn law_shown_hands_win(m: HandModel)
    requires
        m.wf(),
        m.phase is Done,
        m.mode == HandMode::Blind,
        two_left(m),
    ensures
        (forall|k: int|
            0 <= k < m.seats.len() && !(#[trigger] m.seats[k]).folded
                ==> m.seats[k].hole is Revealed) ==> outcome::blind_result(m) is Ok
            && hand_settled(
            m,
            m.hand_pots(),
            outcome::blind_result(m)->Ok_0,
            has_revealed(),
            false,
        ),
        forall|k: int| #[trigger]
            first_silent(m, k) ==> outcome::blind_result(m) == Err::<ResultModel, BlindFinishError>(
                silent_error(m, k),
            ),
{
    lemma_two_left(m);
    assert forall|k: int| #[trigger] first_silent(m, k) implies outcome::blind_result(m)
        == Err::<ResultModel, BlindFinishError>(silent_error(m, k)) by {
        lemma_silent(m, k);
    }
    if forall|k: int|
        0 <= k < m.seats.len() && !(#[trigger] m.seats[k]).folded
            ==> m.seats[k].hole is Revealed {
        seqs::lemma_count_bounds(m.seats, outcome::has_not_shown());
        if seqs::count_of(m.seats, outcome::has_not_shown()) > 0 {
            let k = seqs::lemma_count_witness(m.seats, outcome::has_not_shown());
            assert(m.seats[k].hole is Revealed);
        }
        lemma_picked_alike(m.seats, outcome::has_shown(), has_revealed(), outcome::known_hand());
        lemma_showdown_settles(m, has_revealed(), Set::empty(), false);
    }
}

/// A hand dealt elsewhere that is over, with two or more players left, settled
/// with forfeits: where one of them has shown, the hands that were shown settle
/// it, and who has not shown gets nothing that was matched; where none has, it
/// is refused for the first of them.
pub proof fn law_silent_players_forfeit(m: HandModel)
    requires
        m.wf(),
        m.phase is Done,
        m.mode == HandMode::Blind,
        two_left(m),
    ensures
        (exists|k: int|
            0 <= k < m.seats.len() && !(#[trigger] m.seats[k]).folded
                && m.seats[k].hole is Revealed) ==> outcome::forfeit_result(m) is Ok
            && hand_settled(
            m,
            m.hand_pots(),
            outcome::forfeit_result(m)->Ok_0,
            has_revealed(),
            true,
        ),
        (forall|k: int|
            0 <= k < m.seats.len() && !(#[trigger] m.seats[k]).folded ==> !(
            m.seats[k].hole is Revealed)) ==> forall|k: int| #[trigger]
            first_silent(m, k) ==> outcome::forfeit_result(m) == Err::<
                ResultModel,
                BlindFinishError,
            >(silent_error(m, k)),
{
    lemma_two_left(m);
    lemma_picked_alike(m.seats, outcome::has_shown(), has_revealed(), outcome::known_hand());
    lemma_hands(m, has_revealed());
    let hands = hands_of(m, has_revealed());
    let of = passing(m, has_revealed());
    if exists|k: int|
        0 <= k < m.seats.len() && !(#[trigger] m.seats[k]).folded && m.seats[k].hole is Revealed {
        let k = choose|k: int|
            0 <= k < m.seats.len() && !(#[trigger] m.seats[k]).folded
                && m.seats[k].hole is Revealed;
        assert(of(k));
        assert(hands.contains(hand_at(m, k)));
        assert forall|j: int| 0 <= j < m.seats.len() && !(#[trigger] m.seats[j]).folded
            && !has_revealed()(m.seats[j]) implies outcome::silent_players(m.seats).contains(
            m.seats[j].player_id.0,
        ) by {
            lemma_silent_set(m.seats, j);
        }
        lemma_showdown_settles(m, has_revealed(), outcome::silent_players(m.seats), true);
    } else {
        if hands.len() > 0 {
            assert(is_hand_among(m, hands[0], of));
            let k = choose|k: int|
                #![trigger m.seats[k]]
                0 <= k < m.seats.len() && of(k) && hands[0] == hand_at(m, k);
            assert(!m.seats[k].folded && m.seats[k].hole is Revealed);
        }
        assert forall|k: int| #[trigger] first_silent(m, k) implies outcome::forfeit_result(m)
            == Err::<ResultModel, BlindFinishError>(silent_error(m, k)) by {
            lemma_silent(m, k);
        }
    }
}

/// A hand is settled without a showdown: every pot that was matched goes to
/// the seats `who` says for its cap, and what nobody matched goes back.
pub open spec fn settled_without_cards(
    m: HandModel,
    pots: Seq<PotModel>,
    r: ResultModel,
    who: spec_fn(int, int) -> bool,
) -> bool {
    &&& r.pots.len() == pots.len()
    &&& forall|i: int|
        0 <= i < pots.len() ==> {
            let p = #[trigger] r.pots[i];
            &&& p.index == i
            &&& p.amount == pots[i].amount
            &&& pots[i].eligible.len() > 0 ==> p.eligible_player_ids == pots[i].eligible
            &&& shared_evenly(m, p)
            &&& p.is_refund == (pots[i].refund_to.len() > 0)
            &&& goes_to(
                m,
                p,
                |k: int|
                    if pots[i].refund_to.len() > 0 {
                        pots[i].refund_to.contains(m.seats[k].player_id)
                    } else {
                        who(pots[i].cap.0 as int, k)
                    },
            )
        }
    &&& paid_out(m, r)
    &&& r.showdown.len() == 0
    &&& r.show_order.len() == 0
    &&& r.folded_hole_cards == Map::<u64, HoleCards>::empty()
}

/// A hand dealt elsewhere that is over and that only one player is left in: the
/// player gets all the pots but for what nobody matched, which goes back, and
/// nobody shows.
pub proof fn law_lone_player_takes_the_pots(m: HandModel, lone: int)
    requires
        m.wf(),
        m.phase is Done,
        m.mode == HandMode::Blind,
        0 <= lone < m.seats.len(),
        forall|k: int|
            0 <= k < m.seats.len() ==> (!(#[trigger] m.seats[k]).folded <==> k == lone),
    ensures
        outcome::blind_result(m) is Ok,
        outcome::forfeit_result(m) == outcome::blind_result(m),
        sidepot::layered_right(m.every_pot(), own_stakes(m)),
        settled_without_cards(
            m,
            m.every_pot(),
            outcome::blind_result(m)->Ok_0,
            |cap: int, k: int| k == lone,
        ),
{
    lemma_two_left(m);
    seqs::lemma_count_bounds(m.seats, model::in_hand());
    seqs::lemma_count_positive(m.seats, lone, model::in_hand());
    if two_left(m) {
        let (i, j) = choose|i: int, j: int|
            #![trigger m.seats[i], m.seats[j]]
            0 <= i < j < m.seats.len() && !m.seats[i].folded && !m.seats[j].folded;
        assert(i == lone && j == lone);
    }
    assert forall|j: int| 0 <= j < lone implies !model::in_hand()(#[trigger] m.seats[j]) by {}
    seqs::lemma_first_index_is(m.seats, lone, model::in_hand());
    let pid = m.seats[lone].player_id;
    assert(outcome::lone_player(m) == Some(pid));
    let pots = m.every_pot();
    let ids = model::seat_ids(m.seats);
    let order = outcome::button_order(m);
    let outs = pots::lone_outcomes(pots, Some(pid), order);
    let r = outcome::lone_result(m);
    lemma_own_stakes(m);
    outcome::lemma_hand_pots(m);
    assert forall|i: int| 0 <= i < pots.len() implies (#[trigger] outs[i]) is Some
        && outcome::paid(outs[i]->Some_0, pots[i].amount.0 as int, ids) by {
        assert(sidepot::settleable(pots[i], ids));
        pots::lemma_lone_recipients(pots[i], Some(pid), ids);
        outcome::lemma_outcome_paid(
            i,
            pots[i],
            pots::lone_recipients(pots[i], Some(pid)),
            order,
            ids,
        );
    }
    outcome::lemma_all_paid(pots, outs, ids);
    outcome::lemma_lone_pays(m);
    lemma_paid_out(m, seqs::flatten(outs), Seq::empty(), outcome::show_order(m));
    let who = |cap: int, k: int| k == lone;
    assert forall|i: int| 0 <= i < pots.len() implies {
        let p = #[trigger] r.pots[i];
        &&& p.index == i
        &&& p.amount == pots[i].amount
        &&& pots[i].eligible.len() > 0 ==> p.eligible_player_ids == pots[i].eligible
        &&& shared_evenly(m, p)
        &&& p.is_refund == (pots[i].refund_to.len() > 0)
        &&& goes_to(
            m,
            p,
            |k: int|
                if pots[i].refund_to.len() > 0 {
                    pots[i].refund_to.contains(m.seats[k].player_id)
                } else {
                    who(pots[i].cap.0 as int, k)
                },
        )
    } by {
        let pot = pots[i];
        assert(r.pots[i] == outs[i]->Some_0);
        assert(sidepot::settleable(pot, ids));
        lemma_eligible(m, pots, i);
        pots::lemma_lone_recipients(pot, Some(pid), ids);
        let to = pots::lone_recipients(pot, Some(pid));
        if pot.refund_to.len() == 0 {
            let e = pot.eligible[0];
            assert(ids.contains(e));
            let s = choose|s: int| 0 <= s < ids.len() && ids[s] == e;
            assert(m.seats[s].player_id == e);
            assert(pot.eligible.contains(e));
            assert(s == lone);
            assert forall|k: int| 0 <= k < m.seats.len() implies to.0.contains(
                (#[trigger] m.seats[k]).player_id,
            ) == (k == lone) by {
                assert(to.0[0] == pid);
                if to.0.contains(m.seats[k].player_id) {
                    lemma_same_seat(m, k, lone);
                }
            }
        }
        lemma_shared(
            m,
            i,
            pot,
            to,
            |k: int|
                if pots[i].refund_to.len() > 0 {
                    pots[i].refund_to.contains(m.seats[k].player_id)
                } else {
                    who(pots[i].cap.0 as int, k)
                },
        );
    }
}

/// Seat `k` survives where the players `out` are folded.
pub open spec fn survives(m: HandModel, out: Seq<PlayerId>, k: int) -> bool {
    !m.seats[k].folded && !out.contains(m.seats[k].player_id)
}

/// The seats that share a pot with the cap `cap` of a hand broken off: those
/// that survive and have put in as much, or, where there are none, all that survive.
pub open spec fn survivors_with_part(m: HandModel, out: Seq<PlayerId>) -> spec_fn(
    int,
    int,
) -> bool {
    |cap: int, k: int|
        survives(m, out, k) && (stake_of(m.seats[k]) >= cap || forall|j: int|
            0 <= j < m.seats.len() && survives(m, out, j) ==> stake_of(#[trigger] m.seats[j]) < cap)
}

/// A hand that is broken off because the players `out` withhold the board folds
/// them and no others, and is over. Its pots are those of the hand before they
/// were folded. The survivors who have put in as much as a pot's cap share it,
/// or all survivors where none has; what nobody matched goes back. Nobody shows.
pub proof fn law_survivors_share_the_pots(m: HandModel, out: Seq<PlayerId>)
    requires
        m.wf(),
        m.mode == HandMode::Blind,
        exists|k: int| 0 <= k < m.seats.len() && survives(m, out, k),
    ensures
        ({
            let n = outcome::broken_off(m, out);
            let r = outcome::broken_off_result(n, m.hand_pots());
            &&& n.phase is Done
            &&& n.active_count() > 0
            &&& n.seats.len() == m.seats.len()
            &&& forall|k: int|
                0 <= k < m.seats.len() ==> {
                    let s = #[trigger] n.seats[k];
                    &&& s.folded == !survives(m, out, k)
                    &&& s.player_id == m.seats[k].player_id
                    &&& s.stack == m.seats[k].stack
                    &&& s.starting_stack == m.seats[k].starting_stack
                    &&& s.hole == m.seats[k].hole
                    &&& s.seat == m.seats[k].seat
                    &&& s.all_in == (m.seats[k].all_in && (m.seats[k].folded || !out.contains(
                        m.seats[k].player_id,
                    )))
                }
            &&& n.board == m.board
            &&& n.actions == m.actions
            &&& n.events == m.events
            &&& n.round is None
            &&& n.pending_board_street is None
            &&& n.finished_street == Some(m.street())
            &&& sidepot::layered_right(m.hand_pots(), own_stakes(m))
            &&& settled_without_cards(n, m.hand_pots(), r, survivors_with_part(m, out))
        }),
{
    let n = outcome::broken_off(m, out);
    let pots = m.hand_pots();
    let ids = model::seat_ids(n.seats);
    let order = outcome::button_order(n);
    let sv = outcome::survivors_of(n);
    let outs = pots::survivor_outcomes(pots, sv, order);
    let r = outcome::broken_off_result(n, pots);
    let who = survivors_with_part(m, out);
    outcome::lemma_broken_off(m, out);
    assert(m.banked().seats == m.seats);
    assert forall|k: int| 0 <= k < m.seats.len() implies {
        let s = #[trigger] n.seats[k];
        &&& s.folded == !survives(m, out, k)
        &&& s.player_id == m.seats[k].player_id
        &&& s.stack == m.seats[k].stack
        &&& s.starting_stack == m.seats[k].starting_stack
        &&& s.hole == m.seats[k].hole
        &&& s.seat == m.seats[k].seat
        &&& s.all_in == (m.seats[k].all_in && (m.seats[k].folded || !out.contains(
            m.seats[k].player_id,
        )))
    } by {}
    let z = choose|k: int| 0 <= k < m.seats.len() && survives(m, out, k);
    assert(!n.seats[z].folded);
    seqs::lemma_count_positive(n.seats, z, model::in_hand());
    seqs::lemma_count_positive(m.seats, z, model::in_hand());
    outcome::lemma_hand_pots(m);
    outcome::lemma_survivors_share(n);
    lemma_own_stakes(m);
    assert forall|i: int| 0 <= i < pots.len() implies (#[trigger] outs[i]) is Some
        && outcome::paid(outs[i]->Some_0, pots[i].amount.0 as int, ids) by {
        assert(sidepot::settleable(pots[i], ids));
        pots::lemma_survivor_recipients(pots[i], sv, ids);
        outcome::lemma_outcome_paid(
            i,
            pots[i],
            pots::survivor_recipients(pots[i], sv),
            order,
            ids,
        );
    }
    outcome::lemma_all_paid(pots, outs, ids);
    outcome::lemma_broken_off_pays(m, out);
    lemma_paid_out(n, seqs::flatten(outs), Seq::empty(), Seq::empty());
    assert forall|k: int| 0 <= k < n.seats.len() implies sv.contains(
        (#[trigger] n.seats[k]).player_id,
    ) == survives(m, out, k) by {
        lemma_survivor(n, k);
    }
    assert forall|i: int| 0 <= i < pots.len() implies {
        let p = #[trigger] r.pots[i];
        &&& p.index == i
        &&& p.amount == pots[i].amount
        &&& pots[i].eligible.len() > 0 ==> p.eligible_player_ids == pots[i].eligible
        &&& shared_evenly(n, p)
        &&& p.is_refund == (pots[i].refund_to.len() > 0)
        &&& goes_to(
            n,
            p,
            |k: int|
                if pots[i].refund_to.len() > 0 {
                    pots[i].refund_to.contains(n.seats[k].player_id)
                } else {
                    who(pots[i].cap.0 as int, k)
                },
        )
    } by {
        let pot = pots[i];
        assert(r.pots[i] == outs[i]->Some_0);
        assert(sidepot::settleable(pot, ids));
        lemma_eligible(m, pots, i);
        pots::lemma_survivor_recipients(pot, sv, ids);
        let to = pots::survivor_recipients(pot, sv);
        if pot.refund_to.len() == 0 {
            assert forall|k: int| 0 <= k < n.seats.len() implies to.0.contains(
                (#[trigger] n.seats[k]).player_id,
            ) == who(pot.cap.0 as int, k) by {
                lemma_survivor_part(m, out, i, k);
            }
        }
        lemma_shared(
            n,
            i,
            pot,
            to,
            |k: int|
                if pots[i].refund_to.len() > 0 {
                    pots[i].refund_to.contains(n.seats[k].player_id)
                } else {
                    who(pots[i].cap.0 as int, k)
                },
        );
    }
}

proof fn lemma_survivor(n: HandModel, k: int)
    requires
        n.sound(),
        0 <= k < n.seats.len(),
    ensures
        outcome::survivors_of(n).contains(n.seats[k].player_id) == !n.seats[k].folded,
{
    let sv = outcome::survivors_of(n);
    seqs::lemma_pick_from(n.seats, model::in_hand(), model::seat_player());
    if !n.seats[k].folded {
        seqs::lemma_pick_has(n.seats, k, model::in_hand(), model::seat_player());
    } else if sv.contains(n.seats[k].player_id) {
        let x = choose|x: int| 0 <= x < sv.len() && sv[x] == n.seats[k].player_id;
        assert(seqs::comes_from(n.seats, model::in_hand(), model::seat_player(), sv[x]));
        let j = choose|j: int|
            0 <= j < n.seats.len() && model::in_hand()(#[trigger] n.seats[j])
                && model::seat_player()(n.seats[j]) == sv[x];
        lemma_same_seat(n, j, k);
    }
}

/// Who shares a matched pot of a hand broken off.
proof fn lemma_survivor_part(m: HandModel, out: Seq<PlayerId>, i: int, k: int)
    requires
        m.wf(),
        m.mode == HandMode::Blind,
        outcome::broken_off(m, out).active_count() > 0,
        m.active_count() > 0,
        0 <= i < m.hand_pots().len(),
        m.hand_pots()[i].refund_to.len() == 0,
        0 <= k < m.seats.len(),
    ensures
        pots::survivor_recipients(
            m.hand_pots()[i],
            outcome::survivors_of(outcome::broken_off(m, out)),
        ).0.contains(m.seats[k].player_id) == survivors_with_part(m, out)(
            m.hand_pots()[i].cap.0 as int,
            k,
        ),
{
    let n = outcome::broken_off(m, out);
    let pot = m.hand_pots()[i];
    let cap = pot.cap.0 as int;
    let sv = outcome::survivors_of(n);
    let own = seqs::pick(pot.eligible, pots::listed(sv), pots::itself());
    let pid = m.seats[k].player_id;
    let ids = model::seat_ids(m.seats);
    assert(m.banked().seats == m.seats);
    outcome::lemma_broken_off(m, out);
    outcome::lemma_hand_pots(m);
    outcome::lemma_survivors_share(n);
    lemma_own_stakes(m);
    lemma_eligible(m, m.hand_pots(), i);
    assert(sidepot::settleable(pot, ids));
    seqs::lemma_pick_from(pot.eligible, pots::listed(sv), pots::itself());
    assert forall|j: int| 0 <= j < m.seats.len() implies own.contains(
        (#[trigger] m.seats[j]).player_id,
    ) == (survives(m, out, j) && stake_of(m.seats[j]) >= cap) by {
        let p = m.seats[j].player_id;
        lemma_survivor(n, j);
        assert(n.seats[j].player_id == p);
        if own.contains(p) {
            let x = choose|x: int| 0 <= x < own.len() && own[x] == p;
            assert(seqs::comes_from(pot.eligible, pots::listed(sv), pots::itself(), own[x]));
            let e = choose|e: int|
                0 <= e < pot.eligible.len() && pots::listed(sv)(#[trigger] pot.eligible[e])
                    && pots::itself()(pot.eligible[e]) == own[x];
            assert(pot.eligible.contains(p));
        }
        if survives(m, out, j) && stake_of(m.seats[j]) >= cap {
            assert(pot.eligible.contains(p));
            let e = choose|e: int| 0 <= e < pot.eligible.len() && pot.eligible[e] == p;
            assert(pots::listed(sv)(pot.eligible[e]));
            seqs::lemma_pick_has(pot.eligible, e, pots::listed(sv), pots::itself());
        }
    }
    lemma_survivor(n, k);
    assert(n.seats[k].player_id == pid);
    if own.len() > 0 {
        assert(seqs::comes_from(pot.eligible, pots::listed(sv), pots::itself(), own[0]));
        let e = choose|e: int|
            0 <= e < pot.eligible.len() && pots::listed(sv)(#[trigger] pot.eligible[e])
                && pots::itself()(pot.eligible[e]) == own[0];
        assert(ids.contains(pot.eligible[e]));
        let j = choose|j: int| 0 <= j < ids.len() && ids[j] == pot.eligible[e];
        assert(m.seats[j].player_id == own[0]);
        assert(own.contains(own[0]));
        assert(survives(m, out, j) && stake_of(m.seats[j]) >= cap);
        assert(own.contains(pid) == (survives(m, out, k) && stake_of(m.seats[k]) >= cap));
    } else {
        assert forall|j: int| 0 <= j < m.seats.len() && survives(m, out, j) implies stake_of(
            #[trigger] m.seats[j],
        ) < cap by {
            assert(!own.contains(m.seats[j].player_id));
        }
    }
}

/// A hand that is not over, or that the engine dealt, is not settled as one
/// dealt elsewhere.
pub proof fn law_when_a_hand_cannot_be_settled(m: HandModel)
    ensures
        !(m.phase is Done) ==> outcome::blind_result(m) == Err::<ResultModel, BlindFinishError>(
            BlindFinishError::NotDone,
        ) && outcome::forfeit_result(m) == Err::<ResultModel, BlindFinishError>(
            BlindFinishError::NotDone,
        ),
        m.phase is Done && m.mode == HandMode::Plaintext ==> outcome::blind_result(m) == Err::<
            ResultModel,
            BlindFinishError,
        >(BlindFinishError::NotBlindMode) && outcome::forfeit_result(m) == Err::<
            ResultModel,
            BlindFinishError,
        >(BlindFinishError::NotBlindMode),
{
}

/// Where nobody survives, a hand that is broken off has nobody left.
pub proof fn law_nobody_survives(m: HandModel, out: Seq<PlayerId>)
    requires
        forall|k: int| 0 <= k < m.seats.len() ==> !#[trigger] survives(m, out, k),
    ensures
        outcome::broken_off(m, out).active_count() == 0,
        outcome::broken_off(m, out).phase is Done,
{
    let n = outcome::broken_off(m, out);
    assert(m.banked().seats == m.seats);
    seqs::lemma_count_bounds(n.seats, model::in_hand());
    if n.active_count() > 0 {
        let k = seqs::lemma_count_witness(n.seats, model::in_hand());
        assert(survives(m, out, k));
    }
}

} // verus!
