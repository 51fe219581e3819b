//! Who gets which pot.
//!
//! Every pot is shared out evenly among its recipients. Chips that do not
//! divide go one each to the recipients closest to the left of the button. The
//! three ways to settle a hand differ only in who the recipients are.

use crate::eval::{rank_players, HandRank};
use crate::eval;
use crate::game;
use crate::hand::{BoardCards, BoardModel, HoleCards};
use crate::player::{Chips, PlayerId};
use crate::seqs;
use crate::sidepot::{PotModel, SidePot};
use crate::sidepot;
use std::collections::{HashMap, HashSet};
use super::{PotResult, PotResultModel, PotWinner};
use vstd::prelude::*;

verus! {

/// A player's place in `order`; players without one come last.
pub open spec fn order_key(order: Map<u64, usize>, pid: PlayerId) -> usize {
    if order.contains_key(pid.0) {
        order[pid.0]
    } else {
        usize::MAX
    }
}

/// Players by their place in `order`, then by their number.
pub open spec fn earlier(order: Map<u64, usize>) -> spec_fn(PlayerId, PlayerId) -> bool {
    |a: PlayerId, b: PlayerId|
        order_key(order, a) < order_key(order, b) || (order_key(order, a) == order_key(order, b)
            && a.0 < b.0)
}

/// Who gets one of `rem` odd chips.
pub open spec fn odd_chip_ids(ids: Seq<PlayerId>, rem: int, order: Map<u64, usize>) -> Seq<
    PlayerId,
> {
    let sorted = seqs::arranged(ids, earlier(order));
    if rem < sorted.len() {
        sorted.take(rem)
    } else {
        sorted
    }
}

/// What recipient `pid` gets of `amount`.
pub open spec fn share(
    amount: int,
    ids: Seq<PlayerId>,
    order: Map<u64, usize>,
    pid: PlayerId,
) -> int {
    amount / (ids.len() as int) + if odd_chip_ids(ids, amount % (ids.len() as int), order).contains(
        pid,
    ) {
        1int
    } else {
        0int
    }
}

/// `amount` shared out among `ids`.
pub open spec fn shares(amount: int, ids: Seq<PlayerId>, order: Map<u64, usize>) -> Seq<
    PotWinner,
> {
    Seq::new(
        ids.len(),
        |i: int|
            PotWinner {
                player_id: ids[i],
                amount_won: Chips(share(amount, ids, order, ids[i]) as u32),
            },
    )
}

pub open spec fn won() -> spec_fn(PotWinner) -> int {
    |w: PotWinner| w.amount_won.0 as int
}

/// The chips that the winners of a pot get together.
pub open spec fn winners_total(winners: Seq<PotWinner>) -> int {
    seqs::sum_of(winners, won())
}

/// The outcome of sharing a pot out among `recipients`.
pub open spec fn shared_out(
    index: int,
    pot: PotModel,
    recipients: Seq<PlayerId>,
    is_refund: bool,
    order: Map<u64, usize>,
) -> PotResultModel {
    PotResultModel {
        index,
        amount: pot.amount,
        eligible_player_ids: if pot.eligible.len() == 0 {
            recipients
        } else {
            pot.eligible
        },
        winners: shares(pot.amount.0 as int, recipients, order),
        is_refund,
    }
}

/// The outcome of a pot with the given recipients: none where it is empty or
/// nobody gets it.
pub open spec fn outcome(
    index: int,
    pot: PotModel,
    to: (Seq<PlayerId>, bool),
    order: Map<u64, usize>,
) -> Option<PotResultModel> {
    if pot.amount.0 == 0 || to.0.len() == 0 {
        None
    } else {
        Some(shared_out(index, pot, to.0, to.1, order))
    }
}

/// The test for the hand of `pid`.
pub open spec fn is_hand_of(pid: PlayerId) -> spec_fn((PlayerId, HoleCards)) -> bool {
    |h: (PlayerId, HoleCards)| h.0 == pid
}

/// The test for a player whose cards are among `hands`.
pub open spec fn shows(hands: Seq<(PlayerId, HoleCards)>) -> spec_fn(PlayerId) -> bool {
    |pid: PlayerId| seqs::first_index(hands, is_hand_of(pid)) < hands.len()
}

/// The hand of a player among `hands`.
pub open spec fn hand_among(hands: Seq<(PlayerId, HoleCards)>) -> spec_fn(PlayerId) -> (
    PlayerId,
    HoleCards,
) {
    |pid: PlayerId| hands[seqs::first_index(hands, is_hand_of(pid))]
}

/// The hands that contest a pot.
pub open spec fn contenders(
    eligible: Seq<PlayerId>,
    hands: Seq<(PlayerId, HoleCards)>,
) -> Seq<(PlayerId, HoleCards)> {
    seqs::pick(eligible, shows(hands), hand_among(hands))
}

/// The test for a rank other than `best`.
pub open spec fn other_rank(best: HandRank) -> spec_fn((PlayerId, HandRank)) -> bool {
    |p: (PlayerId, HandRank)| p.1 != best
}

/// The players at the head of a ranking who share its best rank.
pub open spec fn leaders(ranked: Seq<(PlayerId, HandRank)>) -> Seq<PlayerId> {
    if ranked.len() == 0 {
        Seq::empty()
    } else {
        Seq::new(
            seqs::first_index(ranked, other_rank(ranked[0].1)) as nat,
            |i: int| ranked[i].0,
        )
    }
}

/// No more players lead a ranking than it lists.
pub proof fn lemma_leaders_len(ranked: Seq<(PlayerId, HandRank)>)
    ensures
        leaders(ranked).len() <= ranked.len(),
{
    if ranked.len() > 0 {
        seqs::lemma_first_index(ranked, other_rank(ranked[0].1));
    }
}

/// The test for a player in `set`.
pub open spec fn in_set(set: Set<u64>) -> spec_fn(PlayerId) -> bool {
    |pid: PlayerId| set.contains(pid.0)
}

/// The recipients of a pot at a showdown, and whether it goes back, where
/// `in_pot` are the players who contest it and `shown` all the players who have
/// shown a hand, both by their ranks, best first. An unmatched pot goes back.
/// Otherwise the best of those who contest it get it. Where nobody who contests
/// it has shown a hand, it goes to the best of all if one of them has
/// forfeited, else back.
pub open spec fn recipients_by_rank(
    pot: PotModel,
    in_pot: Seq<(PlayerId, HandRank)>,
    shown: Seq<(PlayerId, HandRank)>,
    forfeiters: Set<u64>,
) -> (Seq<PlayerId>, bool) {
    if pot.refund_to.len() > 0 {
        (pot.refund_to, true)
    } else if in_pot.len() > 0 {
        (leaders(in_pot), false)
    } else if seqs::count_of(pot.eligible, in_set(forfeiters)) > 0 && shown.len() > 0 {
        (leaders(shown), false)
    } else {
        (pot.eligible, true)
    }
}

/// The recipients of a pot at a showdown of `hands`, and whether it goes back.
pub open spec fn showdown_recipients(
    pot: PotModel,
    hands: Seq<(PlayerId, HoleCards)>,
    board: BoardModel,
    forfeiters: Set<u64>,
) -> (Seq<PlayerId>, bool) {
    recipients_by_rank(
        pot,
        eval::ranking(contenders(pot.eligible, hands), board),
        eval::ranking(hands, board),
        forfeiters,
    )
}

/// The recipients of a pot where `lone` is the only player left: that player,
/// unless the pot was unmatched or the player has no part in it.
pub open spec fn lone_recipients(pot: PotModel, lone: Option<PlayerId>) -> (Seq<PlayerId>, bool) {
    if pot.refund_to.len() > 0 {
        (pot.refund_to, true)
    } else {
        match lone {
            Some(pid) => if pot.eligible.contains(pid) {
                (seq![pid], false)
            } else {
                (pot.eligible, true)
            },
            None => (pot.eligible, true),
        }
    }
}

/// The test for a player in the list `ids`.
pub open spec fn listed(ids: Seq<PlayerId>) -> spec_fn(PlayerId) -> bool {
    |pid: PlayerId| ids.contains(pid)
}

/// A player, as is.
pub open spec fn itself() -> spec_fn(PlayerId) -> PlayerId {
    |pid: PlayerId| pid
}

/// The recipients of a pot that the survivors of an aborted hand share: an
/// unmatched pot goes back; otherwise the survivors who contest it share it,
/// or all survivors where none of them does.
pub open spec fn survivor_recipients(pot: PotModel, survivors: Seq<PlayerId>) -> (
    Seq<PlayerId>,
    bool,
) {
    let own = if pot.eligible.len() == 0 {
        survivors
    } else {
        seqs::pick(pot.eligible, listed(survivors), itself())
    };
    if pot.refund_to.len() > 0 {
        (pot.refund_to, true)
    } else if own.len() > 0 {
        (own, false)
    } else if survivors.len() > 0 {
        (survivors, false)
    } else {
        (pot.eligible, true)
    }
}

/// However a hand is settled, what nobody matched goes back to who put it in.
pub proof fn law_unmatched_chips_go_back(
    pot: PotModel,
    hands: Seq<(PlayerId, HoleCards)>,
    board: BoardModel,
    forfeiters: Set<u64>,
    lone: Option<PlayerId>,
    survivors: Seq<PlayerId>,
)
    requires
        pot.refund_to.len() > 0,
    ensures
        showdown_recipients(pot, hands, board, forfeiters) == (pot.refund_to, true),
        lone_recipients(pot, lone) == (pot.refund_to, true),
        survivor_recipients(pot, survivors) == (pot.refund_to, true),
{
}

/// The outcome of a showdown, pot by pot.
pub open spec fn showdown_outcomes(
    pots: Seq<PotModel>,
    hands: Seq<(PlayerId, HoleCards)>,
    board: BoardModel,
    order: Map<u64, usize>,
    forfeiters: Set<u64>,
) -> Seq<Option<PotResultModel>> {
    Seq::new(
        pots.len(),
        |i: int|
            outcome(i, pots[i], showdown_recipients(pots[i], hands, board, forfeiters), order),
    )
}

/// The outcome of a hand that one player is left in, pot by pot.
pub open spec fn lone_outcomes(
    pots: Seq<PotModel>,
    lone: Option<PlayerId>,
    order: Map<u64, usize>,
) -> Seq<Option<PotResultModel>> {
    Seq::new(pots.len(), |i: int| outcome(i, pots[i], lone_recipients(pots[i], lone), order))
}

/// The outcome of an aborted hand, pot by pot.
pub open spec fn survivor_outcomes(
    pots: Seq<PotModel>,
    survivors: Seq<PlayerId>,
    order: Map<u64, usize>,
) -> Seq<Option<PotResultModel>> {
    Seq::new(
        pots.len(),
        |i: int| outcome(i, pots[i], survivor_recipients(pots[i], survivors), order),
    )
}

/// The lists of a pot can be counted in a `u32`.
pub open spec fn countable(p: PotModel) -> bool {
    p.eligible.len() <= u32::MAX && p.refund_to.len() <= u32::MAX
}

pub open spec fn all_countable(pots: Seq<PotModel>) -> bool {
    forall|i: int| 0 <= i < pots.len() ==> countable(#[trigger] pots[i])
}

/// The order of odd chips is an order.
pub proof fn lemma_earlier_ranks(order: Map<u64, usize>)
    ensures
        seqs::ranks(earlier(order)),
{
    assert(seqs::ranks(earlier(order)));
}

/// The odd chips go to as many different recipients as there are odd chips.
pub proof fn lemma_odd_chips(ids: Seq<PlayerId>, rem: int, order: Map<u64, usize>)
    requires
        seqs::distinct(ids),
        0 <= rem < ids.len(),
    ensures
        seqs::count_of(ids, listed(odd_chip_ids(ids, rem, order))) == rem,
{
    let sorted = seqs::arranged(ids, earlier(order));
    let odd = odd_chip_ids(ids, rem, order);
    seqs::lemma_arranged_count(ids, earlier(order), listed(odd));
    seqs::lemma_arranged_distinct(ids, earlier(order), itself());
    assert(seqs::distinct(sorted)) by {
        assert forall|i: int, j: int|
            #![trigger sorted[i], sorted[j]]
            0 <= i < j < sorted.len() implies sorted[i] != sorted[j] by {
            assert(itself()(sorted[i]) != itself()(sorted[j]));
        }
    }
    lemma_prefix_listed(sorted, rem, sorted.len() as int);
    assert(sorted.take(sorted.len() as int) =~= sorted);
}

/// Of the first `n` of a list of distinct players, those among the first `rem` are counted.
proof fn lemma_prefix_listed(sorted: Seq<PlayerId>, rem: int, n: int)
    requires
        seqs::distinct(sorted),
        0 <= rem <= sorted.len(),
        0 <= n <= sorted.len(),
    ensures
        seqs::count_of(sorted.take(n), listed(sorted.take(rem))) == if n <= rem {
            n
        } else {
            rem
        },
    decreases n,
{
    if n > 0 {
        lemma_prefix_listed(sorted, rem, n - 1);
        seqs::lemma_count_take(sorted, n - 1, listed(sorted.take(rem)));
        let head = sorted.take(rem);
        if n <= rem {
            assert(head[n - 1] == sorted[n - 1]);
        } else if head.contains(sorted[n - 1]) {
            let k = choose|k: int| 0 <= k < head.len() && head[k] == sorted[n - 1];
            assert(sorted[k] == sorted[n - 1]);
        }
    }
}

/// The bounds of a share.
pub proof fn lemma_share(amount: int, ids: Seq<PlayerId>, order: Map<u64, usize>, pid: PlayerId)
    requires
        ids.len() > 0,
        0 <= amount <= u32::MAX,
    ensures
        0 <= amount / (ids.len() as int) <= share(amount, ids, order, pid) <= amount / (
        ids.len() as int) + 1,
        share(amount, ids, order, pid) <= u32::MAX,
        share(amount, ids, order, pid) <= amount,
{
    let n = ids.len() as int;
    let rem = amount % n;
    assert(0 <= amount / n <= amount) by (nonlinear_arith)
        requires
            n > 0,
            amount >= 0,
    ;
    if odd_chip_ids(ids, rem, order).contains(pid) {
        assert(rem > 0) by {
            if rem == 0 {
                seqs::lemma_arranged_count(ids, earlier(order), listed(ids));
                assert(odd_chip_ids(ids, rem, order).len() == 0);
            }
        }
        assert(amount / n + 1 <= amount) by (nonlinear_arith)
            requires
                n > 0,
                amount >= 0,
                amount % n > 0,
        ;
    }
}

/// The shares of a pot are the whole pot: nothing is lost and nothing is made.
pub proof fn law_shares_add_up(amount: int, ids: Seq<PlayerId>, order: Map<u64, usize>)
    requires
        seqs::distinct(ids),
        ids.len() > 0,
        0 <= amount <= u32::MAX,
    ensures
        winners_total(shares(amount, ids, order)) == amount,
{
    let n = ids.len() as int;
    let base = amount / n;
    let rem = amount % n;
    lemma_odd_chips(ids, rem, order);
    lemma_shares_prefix(amount, ids, order, n);
    assert(shares(amount, ids, order).take(n) =~= shares(amount, ids, order));
    assert(ids.take(n) =~= ids);
    assert(base * n + rem == amount) by (nonlinear_arith)
        requires
            n > 0,
            base == amount / n,
            rem == amount % n,
    ;
}

proof fn lemma_shares_prefix(amount: int, ids: Seq<PlayerId>, order: Map<u64, usize>, k: int)
    requires
        ids.len() > 0,
        0 <= amount <= u32::MAX,
        0 <= k <= ids.len(),
    ensures
        seqs::sum_of(shares(amount, ids, order).take(k), won()) == (amount / (ids.len() as int)) * k
            + seqs::count_of(
            ids.take(k),
            listed(odd_chip_ids(ids, amount % (ids.len() as int), order)),
        ),
    decreases k,
{
    let n = ids.len() as int;
    let base = amount / n;
    let odd = odd_chip_ids(ids, amount % n, order);
    if k > 0 {
        lemma_shares_prefix(amount, ids, order, k - 1);
        seqs::lemma_sum_take(shares(amount, ids, order), k - 1, won());
        seqs::lemma_count_take(ids, k - 1, listed(odd));
        lemma_share(amount, ids, order, ids[k - 1]);
        assert(base * k == base * (k - 1) + base) by (nonlinear_arith);
    } else {
        assert(base * 0 == 0) by (nonlinear_arith);
    }
}

/// Shares of one pot differ by at most one chip, and of two recipients with
/// different shares the larger goes to the one who comes first from the button.
pub proof fn law_odd_chips_go_left_of_button(
    amount: int,
    ids: Seq<PlayerId>,
    order: Map<u64, usize>,
    i: int,
    j: int,
)
    requires
        seqs::distinct(ids),
        0 <= amount <= u32::MAX,
        0 <= i < ids.len(),
        0 <= j < ids.len(),
    ensures
        share(amount, ids, order, ids[i]) <= share(amount, ids, order, ids[j]) + 1,
        share(amount, ids, order, ids[i]) > share(amount, ids, order, ids[j]) ==> earlier(order)(
            ids[i],
            ids[j],
        ),
{
    let n = ids.len() as int;
    let rem = amount % n;
    let odd = odd_chip_ids(ids, rem, order);
    let sorted = seqs::arranged(ids, earlier(order));
    if share(amount, ids, order, ids[i]) > share(amount, ids, order, ids[j]) {
        lemma_earlier_ranks(order);
        seqs::lemma_arranged_in_order(ids, earlier(order));
        seqs::lemma_arranged_count(ids, earlier(order), itself_is(ids[j]));
        let a = choose|a: int| 0 <= a < odd.len() && odd[a] == ids[i];
        seqs::lemma_arranged_contains(ids, earlier(order), ids[j]);
        let b = choose|b: int| 0 <= b < sorted.len() && sorted[b] == ids[j];
        assert(sorted[a] == ids[i]);
        if b < odd.len() {
            assert(odd[b] == ids[j]);
        }
        assert(a < b);
        assert(!earlier(order)(sorted[b], sorted[a]));
        assert(ids[i] != ids[j]);
        assert(ids[i].0 != ids[j].0);
    }
}

pub open spec fn itself_is(pid: PlayerId) -> spec_fn(PlayerId) -> bool {
    |p: PlayerId| p == pid
}

/// Who shares a pot's best hand: only players with that rank, each of them once.
pub proof fn lemma_leaders(hands: Seq<(PlayerId, HoleCards)>, board: BoardModel)
    requires
        hands.len() > 0,
        forall|i: int, j: int|
            #![trigger hands[i], hands[j]]
            0 <= i < j < hands.len() ==> hands[i].0 != hands[j].0,
    ensures
        0 < leaders(eval::ranking(hands, board)).len() <= hands.len(),
        seqs::distinct(leaders(eval::ranking(hands, board))),
        forall|k: int|
            0 <= k < leaders(eval::ranking(hands, board)).len() ==> holds_best(
                hands,
                board,
                #[trigger] leaders(eval::ranking(hands, board))[k],
            ),
{
    let all = eval::rated(hands, board);
    let ranked = eval::ranking(hands, board);
    let best = ranked[0].1;
    let top = leaders(ranked);
    let id_of = |p: (PlayerId, HandRank)| p.0;
    assert forall|i: int, j: int| #![trigger all[i], all[j]] 0 <= i < j < all.len() implies id_of(
        all[i],
    ) != id_of(all[j]) by {
        assert(hands[i].0 != hands[j].0);
    }
    seqs::lemma_arranged_distinct(all, eval::stronger(), id_of);
    eval::law_ranking_sorted_and_stable(hands, board, best);
    seqs::lemma_first_index(ranked, other_rank(best));
    assert(seqs::first_index(ranked, other_rank(best)) > 0) by {
        if seqs::first_index(ranked, other_rank(best)) == 0 {
            assert(other_rank(best)(ranked[0]));
        }
    }
    assert forall|i: int, j: int| #![trigger top[i], top[j]] 0 <= i < j < top.len() implies top[i]
        != top[j] by {
        assert(id_of(ranked[i]) != id_of(ranked[j]));
    }
    assert forall|k: int| 0 <= k < top.len() implies holds_best(
        hands,
        board,
        #[trigger] top[k],
    ) by {
        assert(!other_rank(best)(ranked[k]));
        assert(ranked.contains(ranked[k]));
        assert(all.contains(ranked[k]));
        let i = choose|i: int| 0 <= i < all.len() && all[i] == ranked[k];
        assert(hands[i].0 == top[k]);
        assert forall|j: int| 0 <= j < hands.len() implies !eval::rank_on_board(
            hands[i].1,
            board,
        ).loses_to(eval::rank_on_board((#[trigger] hands[j]).1, board)) by {
            assert(all[j].1 == eval::rank_on_board(hands[j].1, board));
            assert(all.contains(all[j]));
            assert(ranked.contains(all[j]));
            let b = choose|b: int| 0 <= b < ranked.len() && ranked[b] == all[j];
            if b > 0 {
                assert(!ranked[0].1.loses_to(ranked[b].1));
            }
        }
    }
}

/// `pid` holds one of `hands`, and none of them beats it.
pub open spec fn holds_best(
    hands: Seq<(PlayerId, HoleCards)>,
    board: BoardModel,
    pid: PlayerId,
) -> bool {
    exists|i: int|
        0 <= i < hands.len() && (#[trigger] hands[i]).0 == pid && forall|j: int|
            0 <= j < hands.len() ==> !eval::rank_on_board(hands[i].1, board).loses_to(
                eval::rank_on_board((#[trigger] hands[j]).1, board),
            )
}

/// The hands that contest a pot are distinct, and come from the pot's players.
pub proof fn lemma_contenders(eligible: Seq<PlayerId>, hands: Seq<(PlayerId, HoleCards)>)
    requires
        seqs::distinct(eligible),
    ensures
        contenders(eligible, hands).len() <= eligible.len(),
        forall|i: int, j: int|
            #![trigger contenders(eligible, hands)[i], contenders(eligible, hands)[j]]
            0 <= i < j < contenders(eligible, hands).len() ==> contenders(eligible, hands)[i].0
                != contenders(eligible, hands)[j].0,
        forall|i: int|
            0 <= i < contenders(eligible, hands).len() ==> eligible.contains(
                (#[trigger] contenders(eligible, hands)[i]).0,
            ) && hands.contains(contenders(eligible, hands)[i]),
    decreases eligible.len(),
{
    let c = contenders(eligible, hands);
    if eligible.len() > 0 {
        let t = eligible.drop_last();
        assert(seqs::distinct(t)) by {
            assert forall|i: int, j: int| #![trigger t[i], t[j]] 0 <= i < j < t.len() implies t[i]
                != t[j] by {
                assert(eligible[i] != eligible[j]);
            }
        }
        lemma_contenders(t, hands);
        let rest = contenders(t, hands);
        let last = eligible.last();
        seqs::lemma_first_index(hands, is_hand_of(last));
        assert forall|i: int| 0 <= i < c.len() implies eligible.contains((#[trigger] c[i]).0)
            && hands.contains(c[i]) by {
            if i < rest.len() {
                assert(c[i] == rest[i]);
                let k = choose|k: int| 0 <= k < t.len() && t[k] == rest[i].0;
                assert(eligible[k] == c[i].0);
            } else {
                assert(eligible[eligible.len() - 1] == c[i].0);
                assert(hands[seqs::first_index(hands, is_hand_of(last))] == c[i]);
            }
        }
        assert forall|i: int, j: int| #![trigger c[i], c[j]] 0 <= i < j < c.len() implies c[i].0
            != c[j].0 by {
            if j < rest.len() {
                assert(rest[i].0 != rest[j].0);
            } else {
                assert(c[i] == rest[i]);
                let k = choose|k: int| 0 <= k < t.len() && t[k] == rest[i].0;
                assert(eligible[k] != eligible[eligible.len() - 1]);
            }
        }
    }
}

/// `hands` belong to distinct players, all among `ids`.
pub open spec fn hands_of_players(hands: Seq<(PlayerId, HoleCards)>, ids: Seq<PlayerId>) -> bool {
    &&& hands.len() <= ids.len()
    &&& forall|i: int, j: int|
        #![trigger hands[i], hands[j]]
        0 <= i < j < hands.len() ==> hands[i].0 != hands[j].0
    &&& forall|i: int| 0 <= i < hands.len() ==> ids.contains((#[trigger] hands[i]).0)
}

/// Recipients who can share a pot: there are some, none is named twice, and all
/// are among `ids`.
pub open spec fn can_share(to: Seq<PlayerId>, ids: Seq<PlayerId>) -> bool {
    &&& 0 < to.len() <= ids.len()
    &&& seqs::distinct(to)
    &&& forall|i: int| 0 <= i < to.len() ==> ids.contains(#[trigger] to[i])
}

/// The leaders of hands of the players `ids` can share a pot.
proof fn lemma_leaders_share(
    hands: Seq<(PlayerId, HoleCards)>,
    board: BoardModel,
    ids: Seq<PlayerId>,
)
    requires
        hands.len() > 0,
        hands_of_players(hands, ids),
    ensures
        can_share(leaders(eval::ranking(hands, board)), ids),
{
    lemma_leaders(hands, board);
    let top = leaders(eval::ranking(hands, board));
    assert forall|k: int| 0 <= k < top.len() implies ids.contains(#[trigger] top[k]) by {
        assert(holds_best(hands, board, top[k]));
        let i = choose|i: int|
            0 <= i < hands.len() && (#[trigger] hands[i]).0 == top[k] && forall|j: int|
                0 <= j < hands.len() ==> !eval::rank_on_board(hands[i].1, board).loses_to(
                    eval::rank_on_board((#[trigger] hands[j]).1, board),
                );
        assert(ids.contains(hands[i].0));
    }
}

/// At a showdown every pot finds recipients who can share it.
pub proof fn lemma_showdown_recipients(
    pot: PotModel,
    hands: Seq<(PlayerId, HoleCards)>,
    board: BoardModel,
    forfeiters: Set<u64>,
    ids: Seq<PlayerId>,
)
    requires
        sidepot::settleable(pot, ids),
        hands_of_players(hands, ids),
    ensures
        can_share(showdown_recipients(pot, hands, board, forfeiters).0, ids),
{
    let in_pot = contenders(pot.eligible, hands);
    lemma_contenders(pot.eligible, hands);
    eval::lemma_ranking_len(in_pot, board);
    eval::lemma_ranking_len(hands, board);
    if pot.refund_to.len() == 0 {
        if in_pot.len() > 0 {
            assert(hands_of_players(in_pot, ids)) by {
                assert forall|i: int| 0 <= i < in_pot.len() implies ids.contains(
                    (#[trigger] in_pot[i]).0,
                ) by {
                    assert(pot.eligible.contains(in_pot[i].0));
                    let k = choose|k: int|
                        0 <= k < pot.eligible.len() && pot.eligible[k] == in_pot[i].0;
                    assert(ids.contains(pot.eligible[k]));
                }
            }
            lemma_leaders_share(in_pot, board, ids);
        } else if hands.len() > 0 {
            lemma_leaders_share(hands, board, ids);
        }
    }
}

/// With one player left every pot finds recipients who can share it.
pub proof fn lemma_lone_recipients(pot: PotModel, lone: Option<PlayerId>, ids: Seq<PlayerId>)
    requires
        sidepot::settleable(pot, ids),
    ensures
        can_share(lone_recipients(pot, lone).0, ids),
{
    if pot.refund_to.len() == 0 {
        if let Some(pid) = lone {
            if pot.eligible.contains(pid) {
                let k = choose|k: int| 0 <= k < pot.eligible.len() && pot.eligible[k] == pid;
                assert(ids.contains(pot.eligible[k]));
            }
        }
    }
}

/// In an aborted hand every pot finds recipients who can share it.
pub proof fn lemma_survivor_recipients(
    pot: PotModel,
    survivors: Seq<PlayerId>,
    ids: Seq<PlayerId>,
)
    requires
        sidepot::settleable(pot, ids),
        can_share(survivors, ids),
    ensures
        can_share(survivor_recipients(pot, survivors).0, ids),
{
    if pot.refund_to.len() == 0 && pot.eligible.len() > 0 {
        let own = seqs::pick(pot.eligible, listed(survivors), itself());
        assert forall|i: int, j: int|
            #![trigger pot.eligible[i], pot.eligible[j]]
            0 <= i < j < pot.eligible.len() implies itself()(pot.eligible[i]) != itself()(
            pot.eligible[j],
        ) by {}
        seqs::lemma_pick_distinct(pot.eligible, listed(survivors), itself());
        seqs::lemma_pick_from(pot.eligible, listed(survivors), itself());
        seqs::lemma_count_bounds(pot.eligible, listed(survivors));
        assert forall|i: int| 0 <= i < own.len() implies ids.contains(#[trigger] own[i]) by {
            assert(seqs::comes_from(pot.eligible, listed(survivors), itself(), own[i]));
            let k = choose|k: int|
                0 <= k < pot.eligible.len() && listed(survivors)(#[trigger] pot.eligible[k])
                    && itself()(pot.eligible[k]) == own[i];
            assert(ids.contains(pot.eligible[k]));
        }
    }
}

/// A player who forfeits gets nothing of a pot that was matched, once anybody
/// has shown a hand: not as a winner, and not as a refund.
pub proof fn law_forfeiter_gets_no_matched_pot(
    pot: PotModel,
    hands: Seq<(PlayerId, HoleCards)>,
    board: BoardModel,
    forfeiters: Set<u64>,
    forfeiter: PlayerId,
    ids: Seq<PlayerId>,
)
    requires
        sidepot::settleable(pot, ids),
        hands_of_players(hands, ids),
        hands.len() > 0,
        pot.refund_to.len() == 0,
        forfeiters.contains(forfeiter.0),
        forall|i: int| 0 <= i < hands.len() ==> (#[trigger] hands[i]).0 != forfeiter,
        forall|i: int|
            0 <= i < pot.eligible.len() ==> shows(hands)(#[trigger] pot.eligible[i])
                || forfeiters.contains(pot.eligible[i].0),
    ensures
        !showdown_recipients(pot, hands, board, forfeiters).0.contains(forfeiter),
{
    let in_pot = contenders(pot.eligible, hands);
    lemma_contenders(pot.eligible, hands);
    eval::lemma_ranking_len(in_pot, board);
    eval::lemma_ranking_len(hands, board);
    let of = if in_pot.len() > 0 {
        in_pot
    } else {
        hands
    };
    if in_pot.len() == 0 {
        let e = pot.eligible[0];
        if shows(hands)(e) {
            seqs::lemma_pick_has(pot.eligible, 0, shows(hands), hand_among(hands));
        }
        assert(in_set(forfeiters)(e));
        seqs::lemma_count_positive(pot.eligible, 0, in_set(forfeiters));
    }
    let to = showdown_recipients(pot, hands, board, forfeiters).0;
    assert(to == leaders(eval::ranking(of, board)));
    lemma_leaders(of, board);
    if to.contains(forfeiter) {
        let k = choose|k: int| 0 <= k < to.len() && to[k] == forfeiter;
        assert(holds_best(of, board, to[k]));
        let i = choose|i: int|
            0 <= i < of.len() && (#[trigger] of[i]).0 == to[k] && forall|j: int|
                0 <= j < of.len() ==> !eval::rank_on_board(of[i].1, board).loses_to(
                    eval::rank_on_board((#[trigger] of[j]).1, board),
                );
        if in_pot.len() > 0 {
            assert(hands.contains(in_pot[i]));
            let h = choose|h: int| 0 <= h < hands.len() && hands[h] == in_pot[i];
            assert(hands[h].0 != forfeiter);
        }
    }
}

/// A player who does not survive an aborted hand gets nothing of a pot that was matched.
pub proof fn law_withholder_gets_no_matched_pot(
    pot: PotModel,
    survivors: Seq<PlayerId>,
    withholder: PlayerId,
)
    requires
        pot.refund_to.len() == 0,
        survivors.len() > 0,
        !survivors.contains(withholder),
    ensures
        !survivor_recipients(pot, survivors).0.contains(withholder),
        !survivor_recipients(pot, survivors).1,
{
    let own = seqs::pick(pot.eligible, listed(survivors), itself());
    seqs::lemma_pick_from(pot.eligible, listed(survivors), itself());
    if own.contains(withholder) {
        let k = choose|k: int| 0 <= k < own.len() && own[k] == withholder;
        assert(seqs::comes_from(pot.eligible, listed(survivors), itself(), own[k]));
    }
}

fn place_key(order: &HashMap<u64, usize>, pid: PlayerId) -> (k: usize)
    ensures
        k == order_key(order@, pid),
{
    match order.get(&pid.0) {
        Some(k) => *k,
        None => usize::MAX,
    }
}

/// The recipients who get one of `rem` odd chips: those who come first in
/// `button_order`.
pub fn odd_chip_recipients(
    ids: &[PlayerId],
    rem: u32,
    button_order: &HashMap<u64, usize>,
) -> (r: Vec<PlayerId>)
    ensures
        r@ == odd_chip_ids(ids@, rem as int, button_order@),
{
    let mut sorted: Vec<PlayerId> = Vec::new();
    let ghost before = earlier(button_order@);
    let mut i: usize = 0;
    while i < ids.len()
        invariant
            i <= ids@.len(),
            before == earlier(button_order@),
            sorted@.len() == i,
            sorted@ == seqs::arranged(ids@.take(i as int), before),
        decreases ids@.len() - i,
    {
        let item = ids[i];
        let key: usize = place_key(button_order, item);
        let n: usize = sorted.len();
        let mut at: usize = 0;
        while at < n && !(key < place_key(button_order, sorted[at]) || (key == place_key(
            button_order,
            sorted[at],
        ) && item.0 < sorted[at].0))
            invariant
                at <= n,
                n == sorted@.len(),
                before == earlier(button_order@),
                key == order_key(button_order@, item),
                forall|j: int| 0 <= j < at ==> !seqs::after_item(
                    item,
                    before,
                )(#[trigger] sorted@[j]),
            decreases n - at,
        {
            at = at + 1;
        }
        proof {
            seqs::lemma_first_index_is(sorted@, at as int, seqs::after_item(item, before));
            assert(ids@.take(i + 1).drop_last() =~= ids@.take(i as int));
            assert(ids@.take(i + 1).last() == item);
        }
        sorted.insert(at, item);
        i = i + 1;
    }
    assert(ids@.take(i as int) =~= ids@);
    if rem as u64 >= sorted.len() as u64 {
        return sorted;
    }
    sorted.truncate(rem as usize);
    assert(sorted@ =~= odd_chip_ids(ids@, rem as int, button_order@));
    sorted
}

/// Whether `ids` names `pid`.
fn names(ids: &[PlayerId], pid: PlayerId) -> (r: bool)
    ensures
        r == ids@.contains(pid),
{
    let mut i: usize = 0;
    while i < ids.len()
        invariant
            i <= ids@.len(),
            forall|j: int| 0 <= j < i ==> ids@[j] != pid,
        decreases ids@.len() - i,
    {
        if ids[i] == pid {
            return true;
        }
        i = i + 1;
    }
    false
}

/// Shares a pot out among `recipients`.
pub fn share_out(
    index: usize,
    pot: &SidePot,
    recipients: &Vec<PlayerId>,
    is_refund: bool,
    button_order: &HashMap<u64, usize>,
) -> (r: PotResult)
    requires
        0 < recipients@.len() <= u32::MAX,
    ensures
        r@ == shared_out(index as int, pot@, recipients@, is_refund, button_order@),
{
    let n: u32 = recipients.len() as u32;
    let amount: u32 = pot.amount.0;
    let base: u32 = amount / n;
    let rem: u32 = amount % n;
    let odd = odd_chip_recipients(recipients.as_slice(), rem, button_order);
    let ghost all = shares(amount as int, recipients@, button_order@);
    let mut winners: Vec<PotWinner> = Vec::new();
    let mut i: usize = 0;
    while i < recipients.len()
        invariant
            i <= recipients@.len(),
            0 < recipients@.len() <= u32::MAX,
            n == recipients@.len(),
            amount == pot@.amount.0,
            base == amount / n,
            rem == amount % n,
            odd@ == odd_chip_ids(recipients@, rem as int, button_order@),
            all == shares(amount as int, recipients@, button_order@),
            winners@ == all.take(i as int),
        decreases recipients@.len() - i,
    {
        let pid = recipients[i];
        proof {
            lemma_share(amount as int, recipients@, button_order@, pid);
        }
        let extra: u32 = if names(&odd, pid) {
            1
        } else {
            0
        };
        winners.push(PotWinner { player_id: pid, amount_won: Chips(base + extra) });
        assert(winners@ =~= all.take(i + 1));
        i = i + 1;
    }
    assert(winners@ =~= all);
    let eligible_player_ids = if pot.eligible.len() == 0 {
        recipients.clone()
    } else {
        pot.eligible.clone()
    };
    PotResult { index, amount: pot.amount, eligible_player_ids, winners, is_refund }
}

fn find_hand(hands: &[(PlayerId, HoleCards)], pid: PlayerId) -> (i: usize)
    ensures
        i == seqs::first_index(hands@, is_hand_of(pid)),
        i <= hands@.len(),
{
    let mut i: usize = 0;
    while i < hands.len()
        invariant
            i <= hands@.len(),
            forall|j: int| 0 <= j < i ==> !is_hand_of(pid)(#[trigger] hands@[j]),
        decreases hands@.len() - i,
    {
        if hands[i].0 == pid {
            proof {
                seqs::lemma_first_index_is(hands@, i as int, is_hand_of(pid));
            }
            return i;
        }
        i = i + 1;
    }
    proof {
        seqs::lemma_first_index_is(hands@, i as int, is_hand_of(pid));
    }
    i
}

fn contenders_for(eligible: &Vec<PlayerId>, hands: &[(PlayerId, HoleCards)]) -> (r: Vec<
    (PlayerId, HoleCards),
>)
    ensures
        r@ == contenders(eligible@, hands@),
        r@.len() <= eligible@.len(),
{
    let mut r: Vec<(PlayerId, HoleCards)> = Vec::new();
    let mut i: usize = 0;
    while i < eligible.len()
        invariant
            i <= eligible@.len(),
            r@ == contenders(eligible@.take(i as int), hands@),
            r@.len() <= i,
        decreases eligible@.len() - i,
    {
        proof {
            seqs::lemma_pick_take(eligible@, i as int, shows(hands@), hand_among(hands@));
        }
        let k: usize = find_hand(hands, eligible[i]);
        if k < hands.len() {
            r.push(hands[k]);
        }
        i = i + 1;
    }
    assert(eligible@.take(i as int) =~= eligible@);
    r
}

/// The players at the head of a ranking who share its best rank.
pub fn leaders_of(ranked: &[(PlayerId, HandRank)]) -> (r: Vec<PlayerId>)
    ensures
        r@ == leaders(ranked@),
        r@.len() <= ranked@.len(),
{
    let mut r: Vec<PlayerId> = Vec::new();
    if ranked.len() == 0 {
        assert(r@ =~= leaders(ranked@));
        return r;
    }
    let best = ranked[0].1;
    let mut i: usize = 0;
    while i < ranked.len() && ranked[i].1 == best
        invariant
            i <= ranked@.len(),
            ranked@.len() > 0,
            best == ranked@[0].1,
            r@ == Seq::new(i as nat, |k: int| ranked@[k].0),
            forall|j: int| 0 <= j < i ==> !other_rank(best)(#[trigger] ranked@[j]),
        decreases ranked@.len() - i,
    {
        r.push(ranked[i].0);
        i = i + 1;
        assert(r@ =~= Seq::new(i as nat, |k: int| ranked@[k].0));
    }
    proof {
        seqs::lemma_first_index_is(ranked@, i as int, other_rank(best));
    }
    assert(r@ =~= leaders(ranked@));
    r
}

/// Who gets a pot at a showdown, and whether it goes back. `in_pot` are the
/// players who contest it and `shown` all who have shown a hand, best first.
pub fn pot_recipients(
    pot: &SidePot,
    in_pot: &[(PlayerId, HandRank)],
    shown: &[(PlayerId, HandRank)],
    forfeiters: &HashSet<u64>,
) -> (r: (Vec<PlayerId>, bool))
    ensures
        (r.0@, r.1) == recipients_by_rank(pot@, in_pot@, shown@, forfeiters@),
{
    if pot.refund_to.len() > 0 {
        (pot.refund_to.clone(), true)
    } else if in_pot.len() > 0 {
        (leaders_of(in_pot), false)
    } else if any_in(&pot.eligible, forfeiters) && shown.len() > 0 {
        (leaders_of(shown), false)
    } else {
        (pot.eligible.clone(), true)
    }
}

fn any_in(ids: &Vec<PlayerId>, set: &HashSet<u64>) -> (r: bool)
    ensures
        r == (seqs::count_of(ids@, in_set(set@)) > 0),
{
    let mut i: usize = 0;
    proof {
        seqs::lemma_count_bounds(ids@, in_set(set@));
    }
    while i < ids.len()
        invariant
            i <= ids@.len(),
            seqs::count_of(ids@.take(i as int), in_set(set@)) == 0,
        decreases ids@.len() - i,
    {
        if set.contains(&ids[i].0) {
            proof {
                seqs::lemma_count_positive(ids@, i as int, in_set(set@));
            }
            return true;
        }
        proof {
            seqs::lemma_count_take(ids@, i as int, in_set(set@));
        }
        i = i + 1;
    }
    assert(ids@.take(i as int) =~= ids@);
    false
}

/// Settles the pots of a contested hand. `eligible_with_cards` are the hands
/// shown; `forfeiters` are the players who refused to show theirs.
pub fn distribute_pots(
    pots: &[SidePot],
    eligible_with_cards: &[(PlayerId, HoleCards)],
    board: &BoardCards,
    button_order: &HashMap<u64, usize>,
    forfeiters: &HashSet<u64>,
) -> (r: Vec<PotResult>)
    requires
        all_countable(sidepot::pots_view(pots@)),
        eligible_with_cards@.len() <= u32::MAX,
    ensures
        game::results_view(r@) == seqs::flatten(
            showdown_outcomes(
                sidepot::pots_view(pots@),
                eligible_with_cards@,
                board@,
                button_order@,
                forfeiters@,
            ),
        ),
{
    let ghost all = showdown_outcomes(
        sidepot::pots_view(pots@),
        eligible_with_cards@,
        board@,
        button_order@,
        forfeiters@,
    );
    let shown = rank_players(eligible_with_cards, board);
    let mut r: Vec<PotResult> = Vec::new();
    let mut i: usize = 0;
    assert(game::results_view(r@) =~= seqs::flatten(all.take(0)));
    while i < pots.len()
        invariant
            i <= pots@.len(),
            all_countable(sidepot::pots_view(pots@)),
            eligible_with_cards@.len() <= u32::MAX,
            shown@ == eval::ranking(eligible_with_cards@, board@),
            all == showdown_outcomes(
                sidepot::pots_view(pots@),
                eligible_with_cards@,
                board@,
                button_order@,
                forfeiters@,
            ),
            game::results_view(r@) == seqs::flatten(all.take(i as int)),
        decreases pots@.len() - i,
    {
        let pot = &pots[i];
        let ghost before = r@;
        proof {
            assert(sidepot::pots_view(pots@)[i as int] == pot@);
            assert(countable(sidepot::pots_view(pots@)[i as int]));
            assert(all.take(i + 1).drop_last() =~= all.take(i as int));
            assert(all.take(i + 1).last() == all[i as int]);
        }
        if pot.amount.0 > 0 {
            let hands = contenders_for(&pot.eligible, eligible_with_cards);
            let in_pot = rank_players(hands.as_slice(), board);
            let (recipients, is_refund) = pot_recipients(
                pot,
                in_pot.as_slice(),
                shown.as_slice(),
                forfeiters,
            );
            proof {
                eval::lemma_ranking_len(hands@, board@);
                eval::lemma_ranking_len(eligible_with_cards@, board@);
                lemma_leaders_len(in_pot@);
                lemma_leaders_len(shown@);
            }
            if recipients.len() > 0 {
                let out = share_out(i, pot, &recipients, is_refund, button_order);
                r.push(out);
                assert(game::results_view(r@) =~= game::results_view(before).push(out@));
            }
        }
        i = i + 1;
    }
    assert(all.take(i as int) =~= all);
    r
}

/// Settles the pots of a hand that nobody contests any more: `lone` takes them,
/// but for what nobody matched.
pub fn distribute_pots_uncontested(
    pots: &[SidePot],
    lone: Option<PlayerId>,
    button_order: &HashMap<u64, usize>,
) -> (r: Vec<PotResult>)
    requires
        all_countable(sidepot::pots_view(pots@)),
    ensures
        game::results_view(r@) == seqs::flatten(
            lone_outcomes(sidepot::pots_view(pots@), lone, button_order@),
        ),
{
    let ghost all = lone_outcomes(sidepot::pots_view(pots@), lone, button_order@);
    let mut r: Vec<PotResult> = Vec::new();
    let mut i: usize = 0;
    assert(game::results_view(r@) =~= seqs::flatten(all.take(0)));
    while i < pots.len()
        invariant
            i <= pots@.len(),
            all_countable(sidepot::pots_view(pots@)),
            all == lone_outcomes(sidepot::pots_view(pots@), lone, button_order@),
            game::results_view(r@) == seqs::flatten(all.take(i as int)),
        decreases pots@.len() - i,
    {
        let pot = &pots[i];
        let ghost before = r@;
        proof {
            assert(sidepot::pots_view(pots@)[i as int] == pot@);
            assert(countable(sidepot::pots_view(pots@)[i as int]));
            assert(all.take(i + 1).drop_last() =~= all.take(i as int));
            assert(all.take(i + 1).last() == all[i as int]);
        }
        if pot.amount.0 > 0 {
            let mut is_refund: bool = true;
            let recipients: Vec<PlayerId> = if pot.refund_to.len() > 0 {
                pot.refund_to.clone()
            } else {
                match lone {
                    Some(pid) => {
                        if names(pot.eligible.as_slice(), pid) {
                            is_refund = false;
                            let mut one: Vec<PlayerId> = Vec::new();
                            one.push(pid);
                            assert(one@ =~= seq![pid]);
                            one
                        } else {
                            pot.eligible.clone()
                        }
                    },
                    None => pot.eligible.clone(),
                }
            };
            if recipients.len() > 0 {
                let out = share_out(i, pot, &recipients, is_refund, button_order);
                r.push(out);
                assert(game::results_view(r@) =~= game::results_view(before).push(out@));
            }
        }
        i = i + 1;
    }
    assert(all.take(i as int) =~= all);
    r
}

/// A list of the same players.
fn same_players(ids: &[PlayerId]) -> (r: Vec<PlayerId>)
    ensures
        r@ == ids@,
{
    let mut r: Vec<PlayerId> = Vec::new();
    r.extend_from_slice(ids);
    assert(r@ =~= ids@);
    r
}

/// Those of `ids` who are `among`.
fn those_listed(ids: &Vec<PlayerId>, among: &[PlayerId]) -> (r: Vec<PlayerId>)
    ensures
        r@ == seqs::pick(ids@, listed(among@), itself()),
        r@.len() <= ids@.len(),
{
    let mut r: Vec<PlayerId> = Vec::new();
    let mut i: usize = 0;
    while i < ids.len()
        invariant
            i <= ids@.len(),
            r@ == seqs::pick(ids@.take(i as int), listed(among@), itself()),
            r@.len() <= i,
        decreases ids@.len() - i,
    {
        proof {
            seqs::lemma_pick_take(ids@, i as int, listed(among@), itself());
        }
        if names(among, ids[i]) {
            r.push(ids[i]);
        }
        i = i + 1;
    }
    assert(ids@.take(i as int) =~= ids@);
    r
}

/// Settles the pots of an aborted hand: each is shared by the survivors who
/// contest it, or by all of them where none does; what nobody matched goes back.
pub fn distribute_pots_among_survivors(
    pots: &[SidePot],
    survivors: &[PlayerId],
    button_order: &HashMap<u64, usize>,
) -> (r: Vec<PotResult>)
    requires
        all_countable(sidepot::pots_view(pots@)),
        survivors@.len() <= u32::MAX,
    ensures
        game::results_view(r@) == seqs::flatten(
            survivor_outcomes(sidepot::pots_view(pots@), survivors@, button_order@),
        ),
{
    let ghost all = survivor_outcomes(sidepot::pots_view(pots@), survivors@, button_order@);
    let mut r: Vec<PotResult> = Vec::new();
    let mut i: usize = 0;
    assert(game::results_view(r@) =~= seqs::flatten(all.take(0)));
    while i < pots.len()
        invariant
            i <= pots@.len(),
            all_countable(sidepot::pots_view(pots@)),
            survivors@.len() <= u32::MAX,
            all == survivor_outcomes(sidepot::pots_view(pots@), survivors@, button_order@),
            game::results_view(r@) == seqs::flatten(all.take(i as int)),
        decreases pots@.len() - i,
    {
        let pot = &pots[i];
        let ghost before = r@;
        proof {
            assert(sidepot::pots_view(pots@)[i as int] == pot@);
            assert(countable(sidepot::pots_view(pots@)[i as int]));
            assert(all.take(i + 1).drop_last() =~= all.take(i as int));
            assert(all.take(i + 1).last() == all[i as int]);
        }
        if pot.amount.0 > 0 {
            let own: Vec<PlayerId> = if pot.eligible.len() == 0 {
                same_players(survivors)
            } else {
                those_listed(&pot.eligible, survivors)
            };
            let mut is_refund: bool = false;
            let recipients: Vec<PlayerId> = if pot.refund_to.len() > 0 {
                is_refund = true;
                pot.refund_to.clone()
            } else if own.len() > 0 {
                own
            } else if survivors.len() > 0 {
                same_players(survivors)
            } else {
                is_refund = true;
                pot.eligible.clone()
            };
            if recipients.len() > 0 {
                let out = share_out(i, pot, &recipients, is_refund, button_order);
                r.push(out);
                assert(game::results_view(r@) =~= game::results_view(before).push(out@));
            }
        }
        i = i + 1;
    }
    assert(all.take(i as int) =~= all);
    r
}

} // verus!
