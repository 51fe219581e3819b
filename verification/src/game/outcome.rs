//! What comes out of a hand: who shows in which order, who gets what, and what
//! everybody has at the end.

use super::model::HandModel;
use super::{
    BlindFinishError, HandMode, HandSeat, PotResultModel, PotWinner, ResultModel, ShowdownModel,
};
use crate::event::EventModel;
use crate::hand::{BoardModel, HoleCards, Street};
use crate::player::PlayerId;
use crate::sidepot::{PotModel, Stake};
use crate::eval;
use crate::game::invariants;
use crate::game::model;
use crate::game::pots;
use crate::seqs;
use crate::sidepot;
use vstd::prelude::*;

verus! {

/// The places of the first `k` players to the left of the button.
pub open spec fn order_up_to(m: HandModel, k: int) -> Map<u64, usize>
    decreases k,
{
    if k <= 0 {
        Map::empty()
    } else {
        order_up_to(m, k - 1).insert(
            m.seats[(m.left_of_button() + (k - 1)) % (m.seats.len() as int)].player_id.0,
            (k - 1) as usize,
        )
    }
}

/// The players by their distance to the left of the button.
pub open spec fn button_order(m: HandModel) -> Map<u64, usize> {
    order_up_to(m, m.seats.len() as int)
}

/// Where the showing of hands begins: with the last player to raise on the
/// river, or with the first player left of the button who is in the hand.
pub open spec fn show_start(m: HandModel) -> int {
    let left = m.left_of_button();
    match model::last_raiser(m.facts_of(Street::River)) {
        Some(pid) => if m.seat_index(pid) < m.seats.len() {
            m.seat_index(pid)
        } else {
            left
        },
        None => (left + seqs::first_index(m.seats_from(left), model::in_hand())) % (m.seats.len() as int),
    }
}

/// The order in which the players show their hands, going round the table.
/// Nobody has to show where at most one player is left.
pub open spec fn show_order(m: HandModel) -> Seq<PlayerId> {
    if m.active_count() <= 1 {
        Seq::empty()
    } else {
        seqs::pick(m.seats_from(show_start(m)), model::in_hand(), model::seat_player())
    }
}

/// What `pid` gets by one share.
pub open spec fn award_of(pid: PlayerId) -> spec_fn(PotWinner) -> int {
    |w: PotWinner|
        if w.player_id == pid {
            w.amount_won.0 as int
        } else {
            0
        }
}

/// What `pid` gets of one pot.
pub open spec fn pot_award(pid: PlayerId) -> spec_fn(PotResultModel) -> int {
    |r: PotResultModel| seqs::sum_of(r.winners, award_of(pid))
}

/// What `pid` gets of all pots.
pub open spec fn awarded(results: Seq<PotResultModel>, pid: PlayerId) -> int {
    seqs::sum_of(results, pot_award(pid))
}

/// What all players get of one pot.
pub open spec fn result_total() -> spec_fn(PotResultModel) -> int {
    |r: PotResultModel| pots::winners_total(r.winners)
}

/// `f` of every seat, by player number.
pub open spec fn seat_map(seats: Seq<HandSeat>, f: spec_fn(HandSeat) -> u32) -> Map<u64, u32>
    decreases seats.len(),
{
    if seats.len() == 0 {
        Map::empty()
    } else {
        seat_map(seats.drop_last(), f).insert(seats.last().player_id.0, f(seats.last()))
    }
}

/// A seat's winnings.
pub open spec fn winnings(results: Seq<PotResultModel>) -> spec_fn(HandSeat) -> u32 {
    |s: HandSeat| awarded(results, s.player_id) as u32
}

/// A seat's chips after the hand.
pub open spec fn final_chips(results: Seq<PotResultModel>) -> spec_fn(HandSeat) -> u32 {
    |s: HandSeat| (s.stack.0 + awarded(results, s.player_id)) as u32
}

/// The known cards of the seats that folded, by player number.
pub open spec fn folded_cards(seats: Seq<HandSeat>) -> Map<u64, HoleCards>
    decreases seats.len(),
{
    if seats.len() == 0 {
        Map::empty()
    } else {
        let rest = folded_cards(seats.drop_last());
        match (seats.last().folded, seats.last().hole.known()) {
            (true, Some(h)) => rest.insert(seats.last().player_id.0, h),
            _ => rest,
        }
    }
}

/// The outcome of a hand whose pots were settled as `results` say.
pub open spec fn finalized(
    m: HandModel,
    results: Seq<PotResultModel>,
    showdown: Seq<ShowdownModel>,
    order: Seq<PlayerId>,
) -> ResultModel {
    ResultModel {
        deck_seed: m.deck_seed,
        board: m.board,
        pots: results,
        chips_awarded: seat_map(m.seats, winnings(results)),
        final_stacks: seat_map(m.seats, final_chips(results)),
        actions: m.actions,
        showdown,
        show_order: order,
        folded_hole_cards: if m.mode == HandMode::Plaintext {
            folded_cards(m.seats)
        } else {
            Map::empty()
        },
    }
}

/// The hand with its outcome reported.
pub open spec fn concluded(m: HandModel, result: ResultModel) -> HandModel {
    m.reporting(EventModel::HandFinished { result })
}

/// The test for a seat in the hand whose cards are known.
pub open spec fn can_show() -> spec_fn(HandSeat) -> bool {
    |s: HandSeat| !s.folded && s.hole.known() is Some
}

/// The test for a seat in the hand that has shown its cards.
pub open spec fn has_shown() -> spec_fn(HandSeat) -> bool {
    |s: HandSeat| !s.folded && s.hole is Revealed
}

/// The test for a seat in the hand that has not shown its cards.
pub open spec fn has_not_shown() -> spec_fn(HandSeat) -> bool {
    |s: HandSeat| !s.folded && !(s.hole is Revealed)
}

/// A seat's player and known cards.
pub open spec fn known_hand() -> spec_fn(HandSeat) -> (PlayerId, HoleCards) {
    |s: HandSeat| (s.player_id, s.hole.known()->Some_0)
}

/// The hands of a deal by the engine that go to the showdown.
pub open spec fn dealt_hands(m: HandModel) -> Seq<(PlayerId, HoleCards)> {
    seqs::pick(m.seats, can_show(), known_hand())
}

/// The hands that were shown of a deal elsewhere.
pub open spec fn shown_hands(m: HandModel) -> Seq<(PlayerId, HoleCards)> {
    seqs::pick(m.seats, has_shown(), known_hand())
}

/// The players who are in the hand and have not shown their cards.
pub open spec fn silent_players(seats: Seq<HandSeat>) -> Set<u64>
    decreases seats.len(),
{
    if seats.len() == 0 {
        Set::empty()
    } else if has_not_shown()(seats.last()) {
        silent_players(seats.drop_last()).insert(seats.last().player_id.0)
    } else {
        silent_players(seats.drop_last())
    }
}

/// The hands shown down, best first.
pub open spec fn showdown_of(hands: Seq<(PlayerId, HoleCards)>, board: BoardModel) -> Seq<
    ShowdownModel,
> {
    let ranked = eval::ranking(hands, board);
    Seq::new(
        ranked.len(),
        |i: int|
            ShowdownModel {
                player_id: ranked[i].0,
                hole_cards: hands[seqs::first_index(hands, pots::is_hand_of(ranked[i].0))].1,
                rank: ranked[i].1,
                rank_name: ranked[i].1.label()@,
            },
    )
}

/// The outcome of a hand that goes to a showdown of `hands`.
pub open spec fn showdown_result(
    m: HandModel,
    hands: Seq<(PlayerId, HoleCards)>,
    forfeiters: Set<u64>,
) -> ResultModel {
    finalized(
        m,
        seqs::flatten(
            pots::showdown_outcomes(m.hand_pots(), hands, m.board, button_order(m), forfeiters),
        ),
        showdown_of(hands, m.board),
        show_order(m),
    )
}

/// The outcome of a hand that the engine dealt.
pub open spec fn dealt_result(m: HandModel) -> ResultModel {
    showdown_result(m, dealt_hands(m), Set::empty())
}

/// The only player left, where there is one.
pub open spec fn lone_player(m: HandModel) -> Option<PlayerId> {
    let i = seqs::first_index(m.seats, model::in_hand());
    if i < m.seats.len() {
        Some(m.seats[i].player_id)
    } else {
        None
    }
}

/// The outcome of a hand that nobody contests: the only player left gets the
/// pots, but for what nobody matched. With nobody left, every pot goes back to
/// those who put into it.
pub open spec fn lone_result(m: HandModel) -> ResultModel {
    finalized(
        m,
        seqs::flatten(pots::lone_outcomes(m.every_pot(), lone_player(m), button_order(m))),
        Seq::empty(),
        show_order(m),
    )
}

/// The error of the first seat in the hand that has not shown its cards.
pub open spec fn missing_reveal(m: HandModel) -> BlindFinishError {
    let s = m.seats[seqs::first_index(m.seats, has_not_shown())];
    BlindFinishError::MissingReveal { player_id: s.player_id, seat: s.seat }
}

/// What every way to settle a hand dealt elsewhere refuses: a hand that is not
/// over, and one that the engine dealt.
pub open spec fn blind_refusal(m: HandModel) -> Option<BlindFinishError> {
    if !(m.phase is Done) {
        Some(BlindFinishError::NotDone)
    } else if m.mode != HandMode::Blind {
        Some(BlindFinishError::NotBlindMode)
    } else {
        None
    }
}

/// The outcome of a hand dealt elsewhere, where everybody left must show.
pub open spec fn blind_result(m: HandModel) -> Result<ResultModel, BlindFinishError> {
    match blind_refusal(m) {
        Some(e) => Err(e),
        None => if m.active_count() <= 1 {
            Ok(lone_result(m))
        } else if seqs::count_of(m.seats, has_not_shown()) > 0 {
            Err(missing_reveal(m))
        } else {
            Ok(showdown_result(m, shown_hands(m), Set::empty()))
        },
    }
}

/// The outcome of a hand dealt elsewhere, where players who do not show forfeit.
pub open spec fn forfeit_result(m: HandModel) -> Result<ResultModel, BlindFinishError> {
    match blind_refusal(m) {
        Some(e) => Err(e),
        None => if m.active_count() <= 1 {
            Ok(lone_result(m))
        } else if shown_hands(m).len() == 0 {
            Err(missing_reveal(m))
        } else {
            Ok(showdown_result(m, shown_hands(m), silent_players(m.seats)))
        },
    }
}

/// The seats with the players `out` folded.
pub open spec fn folded_out(seats: Seq<HandSeat>, out: Seq<PlayerId>) -> Seq<HandSeat> {
    Seq::new(
        seats.len(),
        |i: int|
            if out.contains(seats[i].player_id) && !seats[i].folded {
                HandSeat { folded: true, all_in: false, ..seats[i] }
            } else {
                seats[i]
            },
    )
}

/// The hand broken off because the players `out` withhold the board: its chips
/// are put to the pots, these players are folded, and it is over.
pub open spec fn broken_off(m: HandModel, out: Seq<PlayerId>) -> HandModel {
    HandModel {
        seats: folded_out(m.banked().seats, out),
        pending_board_street: None,
        ..m.banked()
    }.finished()
}

/// The players who are left.
pub open spec fn survivors_of(m: HandModel) -> Seq<PlayerId> {
    seqs::pick(m.seats, model::in_hand(), model::seat_player())
}

/// The outcome of a hand that was broken off, whose pots were `pots` before.
pub open spec fn broken_off_result(m: HandModel, pots: Seq<PotModel>) -> ResultModel {
    finalized(
        m,
        seqs::flatten(pots::survivor_outcomes(pots, survivors_of(m), button_order(m))),
        Seq::empty(),
        Seq::empty(),
    )
}

/// A pot was paid out in full to players among `ids`.
pub open spec fn paid(r: PotResultModel, amount: int, ids: Seq<PlayerId>) -> bool {
    &&& pots::winners_total(r.winners) == amount
    &&& r.amount.0 == amount
    &&& forall|i: int|
        0 <= i < r.winners.len() ==> ids.contains((#[trigger] r.winners[i]).player_id)
}

/// The settled pots pay out `total` chips in all, to players among `ids`.
pub open spec fn pays_out(results: Seq<PotResultModel>, total: int, ids: Seq<PlayerId>) -> bool {
    &&& seqs::sum_of(results, result_total()) == total
    &&& forall|i: int|
        0 <= i < results.len() ==> paid(
            #[trigger] results[i],
            results[i].amount.0 as int,
            ids,
        )
}

/// A pot whose recipients can share it is paid out in full.
pub proof fn lemma_outcome_paid(
    index: int,
    pot: PotModel,
    to: (Seq<PlayerId>, bool),
    order: Map<u64, usize>,
    ids: Seq<PlayerId>,
)
    requires
        sidepot::settleable(pot, ids),
        pots::can_share(to.0, ids),
    ensures
        pots::outcome(index, pot, to, order) is Some,
        paid(pots::outcome(index, pot, to, order)->Some_0, pot.amount.0 as int, ids),
{
    pots::law_shares_add_up(pot.amount.0 as int, to.0, order);
    let r = pots::outcome(index, pot, to, order)->Some_0;
    assert forall|i: int| 0 <= i < r.winners.len() implies ids.contains(
        (#[trigger] r.winners[i]).player_id,
    ) by {
        assert(ids.contains(to.0[i]));
    }
}

/// Where every pot is paid out, all the pots are.
pub proof fn lemma_all_paid(
    pots: Seq<PotModel>,
    outs: Seq<Option<PotResultModel>>,
    ids: Seq<PlayerId>,
)
    requires
        outs.len() == pots.len(),
        forall|i: int|
            0 <= i < pots.len() ==> (#[trigger] outs[i]) is Some && paid(
                outs[i]->Some_0,
                pots[i].amount.0 as int,
                ids,
            ),
    ensures
        pays_out(seqs::flatten(outs), sidepot::pots_total(pots), ids),
        seqs::flatten(outs).len() == pots.len(),
        forall|i: int| 0 <= i < pots.len() ==> #[trigger] seqs::flatten(outs)[i] == outs[i]->Some_0,
    decreases pots.len(),
{
    if pots.len() > 0 {
        let p = pots.drop_last();
        let o = outs.drop_last();
        assert forall|i: int| 0 <= i < p.len() implies (#[trigger] o[i]) is Some && paid(
            o[i]->Some_0,
            p[i].amount.0 as int,
            ids,
        ) by {
            assert(o[i] == outs[i]);
        }
        lemma_all_paid(p, o, ids);
        let n = pots.len() - 1;
        assert(outs[n] is Some && paid(outs[n]->Some_0, pots[n].amount.0 as int, ids));
        let rest = seqs::flatten(o);
        let all = seqs::flatten(outs);
        assert(all == rest.push(outs[n]->Some_0));
        seqs::lemma_sum_push(rest, outs[n]->Some_0, result_total());
        assert forall|i: int| 0 <= i < all.len() implies paid(
            #[trigger] all[i],
            all[i].amount.0 as int,
            ids,
        ) by {
            if i < rest.len() {
                assert(all[i] == rest[i]);
            }
        }
        assert forall|i: int| 0 <= i < pots.len() implies #[trigger] all[i]
            == outs[i]->Some_0 by {
            if i < n {
                assert(rest[i] == o[i]->Some_0);
            }
        }
    }
}

/// The pots of a hand can be settled among its seats, and hold what was put in.
pub proof fn lemma_hand_pots(m: HandModel)
    requires
        m.sound(),
    ensures
        sidepot::all_settleable(m.every_pot(), model::seat_ids(m.seats)),
        pots::all_countable(m.every_pot()),
        sidepot::pots_total(m.every_pot()) == m.committed(),
        sidepot::all_settleable(m.hand_pots(), model::seat_ids(m.seats)),
        pots::all_countable(m.hand_pots()),
        m.active_count() > 0 ==> sidepot::pots_total(m.hand_pots()) == m.committed(),
        m.active_count() == 0 ==> m.hand_pots().len() == 0,
{
    let stakes = model::seat_stakes(m.seats);
    invariants::lemma_committed(m);
    invariants::lemma_pot_bounds(m);
    assert(sidepot::stake_ids(stakes) =~= model::seat_ids(m.seats));
    sidepot::lemma_pots_settleable(stakes);
    sidepot::law_pots_hold_all_stakes(stakes);
    assert forall|i: int| 0 <= i < m.every_pot().len() implies pots::countable(
        #[trigger] m.every_pot()[i],
    ) by {
        assert(sidepot::settleable(m.every_pot()[i], model::seat_ids(m.seats)));
    }
    assert forall|i: int| 0 <= i < m.hand_pots().len() implies pots::countable(
        #[trigger] m.hand_pots()[i],
    ) by {
        assert(sidepot::settleable(m.hand_pots()[i], model::seat_ids(m.seats)));
    }
}

/// Hands picked from the seats belong to distinct players of the hand.
pub proof fn lemma_hands_of_seats(m: HandModel, keep: spec_fn(HandSeat) -> bool)
    requires
        seqs::distinct(model::seat_ids(m.seats)),
    ensures
        pots::hands_of_players(seqs::pick(m.seats, keep, known_hand()), model::seat_ids(m.seats)),
{
    let ids = model::seat_ids(m.seats);
    let hands = seqs::pick(m.seats, keep, known_hand());
    seqs::lemma_pick_from(m.seats, keep, known_hand());
    seqs::lemma_count_bounds(m.seats, keep);
    lemma_picked_players(m.seats, keep);
    assert forall|i: int, j: int|
        #![trigger m.seats[i], m.seats[j]]
        0 <= i < j < m.seats.len() implies model::seat_player()(m.seats[i]) != model::seat_player()(
        m.seats[j],
    ) by {
        assert(ids[i] != ids[j]);
    }
    seqs::lemma_pick_distinct(m.seats, keep, model::seat_player());
    let who = seqs::pick(m.seats, keep, model::seat_player());
    assert forall|i: int, j: int|
        #![trigger hands[i], hands[j]]
        0 <= i < j < hands.len() implies hands[i].0 != hands[j].0 by {
        assert(who[i] != who[j]);
    }
    assert forall|i: int| 0 <= i < hands.len() implies ids.contains((#[trigger] hands[i]).0) by {
        assert(seqs::comes_from(m.seats, keep, known_hand(), hands[i]));
        let k = choose|k: int|
            0 <= k < m.seats.len() && keep(#[trigger] m.seats[k]) && known_hand()(m.seats[k])
                == hands[i];
        assert(ids[k] == hands[i].0);
    }
}

/// The players of the picked hands are the picked players.
proof fn lemma_picked_players(seats: Seq<HandSeat>, keep: spec_fn(HandSeat) -> bool)
    ensures
        seqs::pick(seats, keep, known_hand()).len() == seqs::pick(
            seats,
            keep,
            model::seat_player(),
        ).len(),
        forall|i: int|
            0 <= i < seqs::pick(seats, keep, known_hand()).len() ==> (#[trigger] seqs::pick(
                seats,
                keep,
                known_hand(),
            )[i]).0 == seqs::pick(seats, keep, model::seat_player())[i],
    decreases seats.len(),
{
    if seats.len() > 0 {
        lemma_picked_players(seats.drop_last(), keep);
    }
}

/// At a showdown all the pots of a hand are paid out.
pub proof fn lemma_showdown_pays(
    m: HandModel,
    hands: Seq<(PlayerId, HoleCards)>,
    forfeiters: Set<u64>,
)
    requires
        m.sound(),
        m.active_count() > 0,
        pots::hands_of_players(hands, model::seat_ids(m.seats)),
    ensures
        pays_out(
            seqs::flatten(
                pots::showdown_outcomes(m.hand_pots(), hands, m.board, button_order(m), forfeiters),
            ),
            m.committed(),
            model::seat_ids(m.seats),
        ),
{
    let ids = model::seat_ids(m.seats);
    let pots = m.hand_pots();
    let order = button_order(m);
    lemma_hand_pots(m);
    let outs = pots::showdown_outcomes(pots, hands, m.board, order, forfeiters);
    assert forall|i: int| 0 <= i < pots.len() implies (#[trigger] outs[i]) is Some && paid(
        outs[i]->Some_0,
        pots[i].amount.0 as int,
        ids,
    ) by {
        assert(sidepot::settleable(pots[i], ids));
        pots::lemma_showdown_recipients(pots[i], hands, m.board, forfeiters, ids);
        lemma_outcome_paid(
            i,
            pots[i],
            pots::showdown_recipients(pots[i], hands, m.board, forfeiters),
            order,
            ids,
        );
    }
    lemma_all_paid(pots, outs, ids);
}

/// Where nobody contests the pots of a hand, all of them are paid out.
pub proof fn lemma_lone_pays(m: HandModel)
    requires
        m.sound(),
    ensures
        pays_out(
            seqs::flatten(pots::lone_outcomes(m.every_pot(), lone_player(m), button_order(m))),
            m.committed(),
            model::seat_ids(m.seats),
        ),
{
    let ids = model::seat_ids(m.seats);
    let pots = m.every_pot();
    let order = button_order(m);
    lemma_hand_pots(m);
    let outs = pots::lone_outcomes(pots, lone_player(m), order);
    assert forall|i: int| 0 <= i < pots.len() implies (#[trigger] outs[i]) is Some && paid(
        outs[i]->Some_0,
        pots[i].amount.0 as int,
        ids,
    ) by {
        assert(sidepot::settleable(pots[i], ids));
        pots::lemma_lone_recipients(pots[i], lone_player(m), ids);
        lemma_outcome_paid(i, pots[i], pots::lone_recipients(pots[i], lone_player(m)), order, ids);
    }
    lemma_all_paid(pots, outs, ids);
}

/// What `pid` gets of a pot that goes back.
pub open spec fn refund_of(order: Map<u64, usize>, pid: PlayerId) -> spec_fn(PotModel) -> int {
    |p: PotModel|
        seqs::sum_of(pots::shares(p.amount.0 as int, p.refund_to, order), award_of(pid))
}

pub open spec fn no_award() -> spec_fn(PotWinner) -> int {
    |w: PotWinner| 0int
}

/// Of a pot to which each of the players `ids` gave `each`, and that goes back
/// to them, each of them gets `each`.
proof fn lemma_even_refund(
    ids: Seq<PlayerId>,
    each: int,
    order: Map<u64, usize>,
    pid: PlayerId,
)
    requires
        seqs::distinct(ids),
        ids.len() > 0,
        0 <= each <= u32::MAX,
    ensures
        seqs::sum_of(pots::shares(ids.len() * each, ids, order), award_of(pid)) == if ids.contains(
            pid,
        ) {
            each
        } else {
            0
        },
{
    let n = ids.len() as int;
    let amount = ids.len() * each;
    let w = pots::shares(amount, ids, order);
    assert(amount == n * each);
    assert((n * each) / n == each && (n * each) % n == 0) by (nonlinear_arith)
        requires
            n > 0,
    ;
    assert(pots::odd_chip_ids(ids, 0, order).len() == 0);
    assert forall|i: int| 0 <= i < w.len() implies (#[trigger] w[i]).amount_won.0 == each by {
        assert(!pots::odd_chip_ids(ids, 0, order).contains(ids[i]));
    }
    sidepot::lemma_sum_zero(w, no_award());
    if ids.contains(pid) {
        let k = choose|k: int| 0 <= k < ids.len() && ids[k] == pid;
        assert forall|i: int| 0 <= i < w.len() && i != k implies no_award()(#[trigger] w[i])
            == award_of(pid)(w[i]) by {
            assert(ids[i] != ids[k]);
        }
        assert(w[k].player_id == pid);
        seqs::lemma_sum_one_more(w, k, each, no_award(), award_of(pid));
    } else {
        assert forall|i: int| 0 <= i < w.len() implies award_of(pid)(#[trigger] w[i]) == 0 by {
            assert(ids[i] != pid);
        }
        sidepot::lemma_sum_zero(w, award_of(pid));
    }
}

/// With nobody left, a player gets back what the player put in above `prev`.
proof fn lemma_layers_refund(
    stakes: Seq<Stake>,
    prev: int,
    order: Map<u64, usize>,
    k: int,
)
    requires
        0 <= prev,
        0 <= k < stakes.len(),
        seqs::count_of(stakes, sidepot::stake_live()) == 0,
        seqs::distinct(sidepot::stake_ids(stakes)),
        seqs::sum_of(stakes, sidepot::stake_amount()) <= u32::MAX,
    ensures
        seqs::sum_of(sidepot::layers(stakes, prev), refund_of(order, stakes[k].player_id))
            == sidepot::excess(prev)(stakes[k]),
        forall|i: int|
            0 <= i < sidepot::layers(stakes, prev).len() ==> (#[trigger] sidepot::layers(
                stakes,
                prev,
            )[i]).refund_to.len() > 0,
    decreases u32::MAX - prev,
{
    let level = sidepot::next_level(stakes, prev);
    let all = sidepot::layers(stakes, prev);
    let f = refund_of(order, stakes[k].player_id);
    sidepot::lemma_next_level(stakes, prev);
    if level > prev {
        let rest = sidepot::layers(stakes, level);
        let l = sidepot::layer(stakes, prev, level);
        lemma_layers_refund(stakes, level, order, k);
        sidepot::lemma_unclaimed_layer(stakes, prev);
        lemma_even_refund(l.refund_to, level - prev, order, stakes[k].player_id);
        seqs::lemma_sum_concat(seq![l], rest, f);
        seqs::lemma_sum_push(Seq::<PotModel>::empty(), l, f);
        assert(Seq::<PotModel>::empty().push(l) =~= seq![l]);
        assert(f(l) == sidepot::slice(prev, level)(stakes[k]));
        assert forall|i: int| 0 <= i < all.len() implies (#[trigger] all[i]).refund_to.len()
            > 0 by {
            if i > 0 {
                assert(all[i] == rest[i - 1]);
            }
        }
    } else {
        assert(stakes[k].amount <= prev);
    }
}

/// What a player gets of pots that all go back is what the player gets of each.
proof fn lemma_refunds_add_up(
    pots: Seq<PotModel>,
    lone: Option<PlayerId>,
    order: Map<u64, usize>,
    pid: PlayerId,
)
    requires
        forall|i: int|
            0 <= i < pots.len() ==> (#[trigger] pots[i]).refund_to.len() > 0 && pots[i].amount.0
                > 0,
    ensures
        awarded(seqs::flatten(pots::lone_outcomes(pots, lone, order)), pid) == seqs::sum_of(
            pots,
            refund_of(order, pid),
        ),
    decreases pots.len(),
{
    let outs = pots::lone_outcomes(pots, lone, order);
    if pots.len() > 0 {
        let t = pots.drop_last();
        assert forall|i: int| 0 <= i < t.len() implies (#[trigger] t[i]).refund_to.len() > 0
            && t[i].amount.0 > 0 by {
            assert(t[i] == pots[i]);
        }
        lemma_refunds_add_up(t, lone, order, pid);
        assert(outs.drop_last() =~= pots::lone_outcomes(t, lone, order));
        let p = pots[pots.len() - 1];
        assert(outs.last() is Some);
        let r = outs.last()->Some_0;
        assert(r.winners == pots::shares(p.amount.0 as int, p.refund_to, order));
        seqs::lemma_sum_push(seqs::flatten(outs.drop_last()), r, pot_award(pid));
    }
}

/// Everybody has after the hand what they brought to it, and nobody shows.
pub open spec fn all_refunded(m: HandModel, r: ResultModel) -> bool {
    &&& r.showdown.len() == 0
    &&& r.show_order.len() == 0
    &&& forall|k: int|
        0 <= k < m.seats.len() ==> r.final_stacks.contains_key(
            (#[trigger] m.seats[k]).player_id.0,
        ) && r.final_stacks[m.seats[k].player_id.0] == m.seats[k].starting_stack.0
}

/// Where nobody is left, everybody gets back what they put in.
pub proof fn lemma_all_refunded(m: HandModel)
    requires
        m.sound(),
        m.active_count() == 0,
    ensures
        all_refunded(m, lone_result(m)),
{
    let stakes = model::seat_stakes(m.seats);
    let ids = model::seat_ids(m.seats);
    let order = button_order(m);
    let pots = m.every_pot();
    let results = seqs::flatten(pots::lone_outcomes(pots, lone_player(m), order));
    invariants::lemma_committed(m);
    invariants::lemma_pot_bounds(m);
    assert(sidepot::stake_ids(stakes) =~= ids);
    lemma_hand_pots(m);
    sidepot::lemma_unclaimed_pots(stakes);
    assert forall|k: int| 0 <= k < m.seats.len() implies lone_result(m).final_stacks.contains_key(
        (#[trigger] m.seats[k]).player_id.0,
    ) && lone_result(m).final_stacks[m.seats[k].player_id.0] == m.seats[k].starting_stack.0 by {
        let pid = m.seats[k].player_id;
        assert(stakes[k].player_id == pid);
        lemma_layers_refund(stakes, 0, order, k);
        assert forall|i: int| 0 <= i < pots.len() implies (#[trigger] pots[i]).refund_to.len() > 0
            && pots[i].amount.0 > 0 by {
            assert(sidepot::settleable(pots[i], ids));
        }
        lemma_refunds_add_up(pots, lone_player(m), order, pid);
        assert(awarded(results, pid) == m.seats[k].starting_stack.0 - m.seats[k].stack.0);
        lemma_seat_map(m.seats, final_chips(results), k);
    }
}

/// Breaking a hand off keeps it in order.
pub proof fn lemma_broken_off(m: HandModel, out: Seq<PlayerId>)
    requires
        m.sound(),
        m.mode == HandMode::Blind,
    ensures
        broken_off(m, out).sound(),
        m.wf() ==> broken_off(m, out).wf(),
        model::seat_ids(broken_off(m, out).seats) == model::seat_ids(m.seats),
        broken_off(m, out).committed() == m.committed(),
        broken_off(m, out).active_count() <= m.active_count(),
        broken_off(m, out).starting_total() == m.starting_total(),
{
    invariants::lemma_banked(m);
    let n = broken_off(m, out);
    assert(model::seat_ids(n.seats) =~= model::seat_ids(m.seats));
    seqs::lemma_sum_same(n.seats, m.seats, model::put_in(), model::put_in());
    seqs::lemma_sum_same(n.seats, m.seats, model::start_chips(), model::start_chips());
    lemma_fewer_in_hand(m.seats, out);
    if m.phase is NotStarted {
        sidepot::lemma_sum_zero(m.seats, model::put_in());
    }
}

proof fn lemma_fewer_in_hand(seats: Seq<HandSeat>, out: Seq<PlayerId>)
    ensures
        seqs::count_of(folded_out(seats, out), model::in_hand()) <= seqs::count_of(
            seats,
            model::in_hand(),
        ),
    decreases seats.len(),
{
    if seats.len() > 0 {
        lemma_fewer_in_hand(seats.drop_last(), out);
        assert(folded_out(seats, out).drop_last() =~= folded_out(seats.drop_last(), out));
    }
}

/// The players left of a hand can share its pots.
pub proof fn lemma_survivors_share(m: HandModel)
    requires
        seqs::distinct(model::seat_ids(m.seats)),
        m.active_count() > 0,
    ensures
        pots::can_share(survivors_of(m), model::seat_ids(m.seats)),
        survivors_of(m).len() == m.active_count(),
{
    let ids = model::seat_ids(m.seats);
    let s = survivors_of(m);
    assert forall|i: int, j: int|
        #![trigger m.seats[i], m.seats[j]]
        0 <= i < j < m.seats.len() implies model::seat_player()(m.seats[i]) != model::seat_player()(
        m.seats[j],
    ) by {
        assert(ids[i] != ids[j]);
    }
    seqs::lemma_pick_distinct(m.seats, model::in_hand(), model::seat_player());
    seqs::lemma_pick_from(m.seats, model::in_hand(), model::seat_player());
    seqs::lemma_count_bounds(m.seats, model::in_hand());
    assert forall|i: int| 0 <= i < s.len() implies ids.contains(#[trigger] s[i]) by {
        assert(seqs::comes_from(m.seats, model::in_hand(), model::seat_player(), s[i]));
        let k = choose|k: int|
            0 <= k < m.seats.len() && model::in_hand()(#[trigger] m.seats[k]) && model::seat_player(
            )(m.seats[k])
                == s[i];
        assert(ids[k] == s[i]);
    }
}

/// The pots of a hand that was broken off with players left are paid out.
pub proof fn lemma_broken_off_pays(m: HandModel, out: Seq<PlayerId>)
    requires
        m.sound(),
        m.mode == HandMode::Blind,
        broken_off(m, out).active_count() > 0,
    ensures
        ({
            let n = broken_off(m, out);
            pays_out(
                seqs::flatten(
                    pots::survivor_outcomes(m.hand_pots(), survivors_of(n), button_order(n)),
                ),
                n.committed(),
                model::seat_ids(n.seats),
            )
        }),
{
    let n = broken_off(m, out);
    lemma_broken_off(m, out);
    let ids = model::seat_ids(n.seats);
    let pots = m.hand_pots();
    let order = button_order(n);
    lemma_hand_pots(m);
    lemma_survivors_share(n);
    let outs = pots::survivor_outcomes(pots, survivors_of(n), order);
    assert forall|i: int| 0 <= i < pots.len() implies (#[trigger] outs[i]) is Some && paid(
        outs[i]->Some_0,
        pots[i].amount.0 as int,
        ids,
    ) by {
        assert(sidepot::settleable(pots[i], ids));
        pots::lemma_survivor_recipients(pots[i], survivors_of(n), ids);
        lemma_outcome_paid(
            i,
            pots[i],
            pots::survivor_recipients(pots[i], survivors_of(n)),
            order,
            ids,
        );
    }
    lemma_all_paid(pots, outs, ids);
}

/// A seat's winnings by one share.
pub open spec fn seat_share(w: PotWinner) -> spec_fn(HandSeat) -> int {
    |s: HandSeat| award_of(s.player_id)(w)
}

/// A seat's winnings by the shares of one pot.
pub open spec fn seat_shares(winners: Seq<PotWinner>) -> spec_fn(HandSeat) -> int {
    |s: HandSeat| seqs::sum_of(winners, award_of(s.player_id))
}

/// A seat's winnings by all pots.
pub open spec fn seat_winnings(results: Seq<PotResultModel>) -> spec_fn(HandSeat) -> int {
    |s: HandSeat| awarded(results, s.player_id)
}

pub open spec fn no_chips() -> spec_fn(HandSeat) -> int {
    |s: HandSeat| 0int
}

/// A share goes to exactly one seat.
proof fn lemma_one_share(seats: Seq<HandSeat>, w: PotWinner)
    requires
        seqs::distinct(model::seat_ids(seats)),
        model::seat_ids(seats).contains(w.player_id),
    ensures
        seqs::sum_of(seats, seat_share(w)) == w.amount_won.0,
{
    let ids = model::seat_ids(seats);
    let k = choose|k: int| 0 <= k < ids.len() && ids[k] == w.player_id;
    sidepot::lemma_sum_zero(seats, no_chips());
    assert forall|i: int| 0 <= i < seats.len() && i != k implies no_chips()(#[trigger] seats[i])
        == seat_share(w)(seats[i]) by {
        assert(ids[i] != ids[k]);
    }
    assert(seats[k].player_id == w.player_id);
    seqs::lemma_sum_one_more(seats, k, w.amount_won.0 as int, no_chips(), seat_share(w));
}

/// The shares of a pot go to the seats, and to nobody else.
proof fn lemma_shares_to_seats(seats: Seq<HandSeat>, winners: Seq<PotWinner>)
    requires
        seqs::distinct(model::seat_ids(seats)),
        forall|i: int|
            0 <= i < winners.len() ==> model::seat_ids(seats).contains(
                (#[trigger] winners[i]).player_id,
            ),
    ensures
        seqs::sum_of(seats, seat_shares(winners)) == pots::winners_total(winners),
    decreases winners.len(),
{
    if winners.len() == 0 {
        sidepot::lemma_sum_zero(seats, seat_shares(winners));
    } else {
        let t = winners.drop_last();
        let w = winners.last();
        assert forall|i: int| 0 <= i < t.len() implies model::seat_ids(seats).contains(
            (#[trigger] t[i]).player_id,
        ) by {
            assert(t[i] == winners[i]);
        }
        assert(model::seat_ids(seats).contains(winners[winners.len() - 1].player_id));
        lemma_shares_to_seats(seats, t);
        lemma_one_share(seats, w);
        seqs::lemma_sum_split(seats, seat_shares(winners), seat_shares(t), seat_share(w));
    }
}

/// What the pots pay out goes to the seats, and to nobody else.
pub proof fn lemma_winnings_total(seats: Seq<HandSeat>, results: Seq<PotResultModel>, total: int)
    requires
        seqs::distinct(model::seat_ids(seats)),
        pays_out(results, total, model::seat_ids(seats)),
    ensures
        seqs::sum_of(seats, seat_winnings(results)) == total,
        forall|pid: PlayerId| 0 <= #[trigger] awarded(results, pid) <= total,
    decreases results.len(),
{
    lemma_winnings_sum(seats, results);
    assert forall|pid: PlayerId| 0 <= #[trigger] awarded(results, pid) <= total by {
        lemma_awarded_at_most(results, pid);
    }
}

proof fn lemma_winnings_sum(seats: Seq<HandSeat>, results: Seq<PotResultModel>)
    requires
        seqs::distinct(model::seat_ids(seats)),
        forall|i: int|
            0 <= i < results.len() ==> paid(
                #[trigger] results[i],
                results[i].amount.0 as int,
                model::seat_ids(seats),
            ),
    ensures
        seqs::sum_of(seats, seat_winnings(results)) == seqs::sum_of(results, result_total()),
    decreases results.len(),
{
    if results.len() == 0 {
        sidepot::lemma_sum_zero(seats, seat_winnings(results));
    } else {
        let t = results.drop_last();
        let r = results.last();
        assert forall|i: int| 0 <= i < t.len() implies paid(
            #[trigger] t[i],
            t[i].amount.0 as int,
            model::seat_ids(seats),
        ) by {
            assert(t[i] == results[i]);
        }
        assert(paid(
            results[results.len() - 1],
            results[results.len() - 1].amount.0 as int,
            model::seat_ids(seats),
        ));
        lemma_winnings_sum(seats, t);
        lemma_shares_to_seats(seats, r.winners);
        seqs::lemma_sum_split(
            seats,
            seat_winnings(results),
            seat_winnings(t),
            seat_shares(r.winners),
        );
    }
}

/// A player gets no more than is paid out.
proof fn lemma_awarded_at_most(results: Seq<PotResultModel>, pid: PlayerId)
    ensures
        0 <= awarded(results, pid) <= seqs::sum_of(results, result_total()),
    decreases results.len(),
{
    if results.len() > 0 {
        lemma_awarded_at_most(results.drop_last(), pid);
        let w = results.last().winners;
        seqs::lemma_sum_at_most(w, award_of(pid), pots::won());
        seqs::lemma_sum_nonneg(w, award_of(pid));
    }
}

/// What a player gets by the first `k` shares of a pot.
pub proof fn lemma_award_bounds(winners: Seq<PotWinner>, pid: PlayerId)
    ensures
        0 <= seqs::sum_of(winners, award_of(pid)) <= pots::winners_total(winners),
{
    seqs::lemma_sum_at_most(winners, award_of(pid), pots::won());
    seqs::lemma_sum_nonneg(winners, award_of(pid));
}

/// The seat map by a player's number.
pub proof fn lemma_seat_map(seats: Seq<HandSeat>, f: spec_fn(HandSeat) -> u32, k: int)
    requires
        seqs::distinct(model::seat_ids(seats)),
        0 <= k < seats.len(),
    ensures
        seat_map(seats, f).contains_key(seats[k].player_id.0),
        seat_map(seats, f)[seats[k].player_id.0] == f(seats[k]),
    decreases seats.len(),
{
    if k < seats.len() - 1 {
        let t = seats.drop_last();
        let ids = model::seat_ids(seats);
        assert(seqs::distinct(model::seat_ids(t))) by {
            let tids = model::seat_ids(t);
            assert forall|i: int, j: int|
                #![trigger tids[i], tids[j]]
                0 <= i < j < tids.len() implies tids[i] != tids[j] by {
                assert(tids[i] == ids[i] && tids[j] == ids[j]);
            }
        }
        lemma_seat_map(t, f, k);
        assert(ids[k] != ids[seats.len() - 1]);
    }
}

/// A seat's final chips, read off the outcome.
pub open spec fn final_of(stacks: Map<u64, u32>) -> spec_fn(HandSeat) -> int {
    |s: HandSeat| stacks[s.player_id.0] as int
}

/// A settled hand makes no chips and loses none: what the players have after
/// it is together what they brought to it.
pub proof fn law_settlement_conserves_chips(
    m: HandModel,
    results: Seq<PotResultModel>,
    showdown: Seq<ShowdownModel>,
    order: Seq<PlayerId>,
)
    requires
        m.sound(),
        pays_out(results, m.committed(), model::seat_ids(m.seats)),
    ensures
        seqs::sum_of(m.seats, final_of(finalized(m, results, showdown, order).final_stacks))
            == m.starting_total(),
        seqs::sum_of(m.seats, final_of(finalized(m, results, showdown, order).chips_awarded))
            == m.committed(),
{
    let r = finalized(m, results, showdown, order);
    lemma_winnings_total(m.seats, results, m.committed());
    invariants::lemma_committed(m);
    let plain = |s: HandSeat| s.stack.0 + awarded(results, s.player_id);
    assert forall|k: int| 0 <= k < m.seats.len() implies final_of(r.final_stacks)(
        #[trigger] m.seats[k],
    ) == plain(m.seats[k]) && final_of(r.chips_awarded)(m.seats[k]) == seat_winnings(results)(
        m.seats[k],
    ) by {
        lemma_seat_map(m.seats, final_chips(results), k);
        lemma_seat_map(m.seats, winnings(results), k);
        lemma_final_fits(m, results, k);
    }
    seqs::lemma_sum_same(m.seats, m.seats, final_of(r.final_stacks), plain);
    seqs::lemma_sum_same(m.seats, m.seats, final_of(r.chips_awarded), seat_winnings(results));
    seqs::lemma_sum_split(m.seats, plain, model::stack_chips(), seat_winnings(results));
}

/// A player's chips after the hand can be counted.
pub proof fn lemma_final_fits(m: HandModel, results: Seq<PotResultModel>, k: int)
    requires
        m.sound(),
        pays_out(results, m.committed(), model::seat_ids(m.seats)),
        0 <= k < m.seats.len(),
    ensures
        0 <= awarded(results, m.seats[k].player_id) <= u32::MAX,
        m.seats[k].stack.0 + awarded(results, m.seats[k].player_id) <= u32::MAX,
{
    lemma_winnings_total(m.seats, results, m.committed());
    invariants::lemma_committed(m);
    invariants::lemma_pot_bounds(m);
    seqs::lemma_sum_member(m.seats, k, model::stack_chips());
    assert(0 <= awarded(results, m.seats[k].player_id) <= m.committed());
}

} // verus!
