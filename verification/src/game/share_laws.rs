//! Who gets a pot, and how it is shared out, told by the lists that are given.

use crate::eval::HandRank;
use crate::eval;
use crate::game::pots;
use crate::hand::{BoardModel, HoleCards};
use crate::player::PlayerId;
use crate::seqs;
use crate::sidepot::PotModel;
use super::{PotResultModel, PotWinner};
use vstd::prelude::*;

verus! {

// ---- odd chips ----
/// Player `p` comes before player `q`: the one with the lower place, one
/// without a place behind all others; of two with the same, the lower number.
pub open spec fn comes_first(order: Map<u64, usize>, p: PlayerId, q: PlayerId) -> bool {
    let a = if order.dom().contains(p.0) {
        order[p.0]
    } else {
        usize::MAX
    };
    let b = if order.dom().contains(q.0) {
        order[q.0]
    } else {
        usize::MAX
    };
    a < b || a == b && p.0 < q.0
}

/// `first` lists the players at the first of `places`, where `places` names all
/// of `ids` in their order.
pub open spec fn are_first(
    first: Seq<PlayerId>,
    ids: Seq<PlayerId>,
    order: Map<u64, usize>,
    places: Seq<int>,
) -> bool {
    &&& places.len() == ids.len()
    &&& first.len() <= ids.len()
    &&& forall|i: int| 0 <= i < places.len() ==> 0 <= #[trigger] places[i] < ids.len()
    &&& forall|i: int, j: int|
        #![trigger places[i], places[j]]
        0 <= i < j < places.len() ==> places[i] != places[j] && !comes_first(
            order,
            ids[places[j]],
            ids[places[i]],
        )
    &&& forall|i: int| 0 <= i < first.len() ==> #[trigger] first[i] == ids[places[i]]
}

/// Odd chips go to the players who come first, one to each.
pub proof fn law_odd_chips_go_to_the_first(ids: Seq<PlayerId>, rem: int, order: Map<u64, usize>)
    requires
        rem >= 0,
    ensures
        pots::odd_chip_ids(ids, rem, order).len() == if rem < ids.len() {
            rem
        } else {
            ids.len() as int
        },
        exists|places: Seq<int>| #[trigger]
            are_first(pots::odd_chip_ids(ids, rem, order), ids, order, places),
{
    pots::lemma_earlier_ranks(order);
    let before = pots::earlier(order);
    let places = seqs::lemma_arranged_places(ids, before);
    let sorted = seqs::arranged(ids, before);
    let odd = pots::odd_chip_ids(ids, rem, order);
    assert forall|i: int, j: int|
        #![trigger places[i], places[j]]
        0 <= i < j < places.len() implies places[i] != places[j] && !comes_first(
        order,
        ids[places[j]],
        ids[places[i]],
    ) by {
        assert(!before(ids[places[j]], ids[places[i]]));
    }
    assert forall|i: int| 0 <= i < odd.len() implies #[trigger] odd[i] == ids[places[i]] by {
        assert(odd[i] == sorted[i]);
    }
    assert(are_first(odd, ids, order, places));
}

// ---- one pot ----
/// A pot is shared out: each recipient gets a share, in the order given; the
/// shares are the whole pot, as even as can be, and a larger one goes to who
/// comes first.
pub proof fn law_a_pot_is_shared_out(
    index: int,
    pot: PotModel,
    recipients: Seq<PlayerId>,
    is_refund: bool,
    order: Map<u64, usize>,
)
    requires
        seqs::distinct(recipients),
        recipients.len() > 0,
    ensures
        ({
            let r = pots::shared_out(index, pot, recipients, is_refund, order);
            &&& r.index == index
            &&& r.amount == pot.amount
            &&& r.is_refund == is_refund
            &&& pot.eligible.len() > 0 ==> r.eligible_player_ids == pot.eligible
            &&& pot.eligible.len() == 0 ==> r.eligible_player_ids == recipients
            &&& r.winners.len() == recipients.len()
            &&& forall|i: int|
                0 <= i < recipients.len() ==> (#[trigger] r.winners[i]).player_id == recipients[i]
            &&& seqs::sum_of(r.winners, |w: PotWinner| w.amount_won.0 as int) == pot.amount.0
            &&& forall|i: int, j: int|
                #![trigger r.winners[i], r.winners[j]]
                0 <= i < recipients.len() && 0 <= j < recipients.len() ==> {
                    let a = r.winners[i].amount_won.0;
                    let b = r.winners[j].amount_won.0;
                    a <= b + 1 && (a > b ==> comes_first(order, recipients[i], recipients[j]))
                }
        }),
{
    let amount = pot.amount.0 as int;
    let r = pots::shared_out(index, pot, recipients, is_refund, order);
    pots::law_shares_add_up(amount, recipients, order);
    seqs::lemma_sum_same(r.winners, r.winners, |w: PotWinner| w.amount_won.0 as int, pots::won());
    assert forall|i: int, j: int|
        #![trigger r.winners[i], r.winners[j]]
        0 <= i < recipients.len() && 0 <= j < recipients.len() implies {
        let a = r.winners[i].amount_won.0;
        let b = r.winners[j].amount_won.0;
        a <= b + 1 && (a > b ==> comes_first(order, recipients[i], recipients[j]))
    } by {
        pots::lemma_share(amount, recipients, order, recipients[i]);
        pots::lemma_share(amount, recipients, order, recipients[j]);
        pots::law_odd_chips_go_left_of_button(amount, recipients, order, i, j);
    }
}

/// `head` lists the players at the head of `ranked` who share the first rank.
pub open spec fn heads(head: Seq<PlayerId>, ranked: Seq<(PlayerId, HandRank)>) -> bool {
    &&& head.len() <= ranked.len()
    &&& ranked.len() > 0 ==> head.len() > 0
    &&& forall|i: int|
        0 <= i < head.len() ==> #[trigger] head[i] == ranked[i].0 && ranked[i].1 == ranked[0].1
    &&& head.len() < ranked.len() ==> ranked[head.len() as int].1 != ranked[0].1
}

/// The leaders of a ranking are those at its head who share the first rank.
pub proof fn law_leaders_share_the_first_rank(ranked: Seq<(PlayerId, HandRank)>)
    ensures
        heads(pots::leaders(ranked), ranked),
{
    if ranked.len() > 0 {
        let other = pots::other_rank(ranked[0].1);
        seqs::lemma_first_index(ranked, other);
        let head = pots::leaders(ranked);
        assert forall|i: int| 0 <= i < head.len() implies #[trigger] head[i] == ranked[i].0
            && ranked[i].1 == ranked[0].1 by {
            assert(!other(ranked[i]));
        }
        if head.len() == 0 {
            assert(other(ranked[0]));
        }
    }
}

/// Who gets a pot at a showdown: what nobody matched goes back; the best hand
/// among those who contest the pot gets it; where none of them has shown and
/// one of them has forfeited, the best hand of all; else it goes back.
pub proof fn law_who_gets_a_pot(
    pot: PotModel,
    in_pot: Seq<(PlayerId, HandRank)>,
    shown: Seq<(PlayerId, HandRank)>,
    forfeiters: Set<u64>,
)
    ensures
        ({
            let r = pots::recipients_by_rank(pot, in_pot, shown, forfeiters);
            let forfeited = exists|i: int|
                0 <= i < pot.eligible.len() && forfeiters.contains((#[trigger] pot.eligible[i]).0);
            if pot.refund_to.len() > 0 {
                r == (pot.refund_to, true)
            } else if in_pot.len() > 0 {
                !r.1 && heads(r.0, in_pot)
            } else if forfeited && shown.len() > 0 {
                !r.1 && heads(r.0, shown)
            } else {
                r == (pot.eligible, true)
            }
        }),
{
    law_leaders_share_the_first_rank(in_pot);
    law_leaders_share_the_first_rank(shown);
    let gone = pots::in_set(forfeiters);
    seqs::lemma_count_bounds(pot.eligible, gone);
    if exists|i: int|
        0 <= i < pot.eligible.len() && forfeiters.contains((#[trigger] pot.eligible[i]).0) {
        let i = choose|i: int|
            0 <= i < pot.eligible.len() && forfeiters.contains((#[trigger] pot.eligible[i]).0);
        seqs::lemma_count_positive(pot.eligible, i, gone);
    } else if seqs::count_of(pot.eligible, gone) > 0 {
        let i = seqs::lemma_count_witness(pot.eligible, gone);
        assert(forfeiters.contains(pot.eligible[i].0));
    }
}

/// The first hand of `p` among `hands` is at place `h`.
pub open spec fn first_hand_of(
    hands: Seq<(PlayerId, HoleCards)>,
    p: PlayerId,
    h: int,
) -> bool {
    &&& 0 <= h < hands.len()
    &&& hands[h].0 == p
    &&& forall|g: int| 0 <= g < h ==> (#[trigger] hands[g]).0 != p
}

/// `p` has a hand among `hands`.
pub open spec fn has_hand(hands: Seq<(PlayerId, HoleCards)>) -> spec_fn(PlayerId) -> bool {
    |p: PlayerId| exists|h: int| 0 <= h < hands.len() && (#[trigger] hands[h]).0 == p
}

/// A player, as given.
pub open spec fn as_is() -> spec_fn(PlayerId) -> PlayerId {
    |p: PlayerId| p
}

/// Whose hands these are.
pub open spec fn owners(c: Seq<(PlayerId, HoleCards)>) -> Seq<PlayerId> {
    Seq::new(c.len(), |i: int| c[i].0)
}

/// `x` is the first hand of its player among `hands`.
pub open spec fn is_own_hand(
    hands: Seq<(PlayerId, HoleCards)>,
    x: (PlayerId, HoleCards),
) -> bool {
    exists|h: int| #[trigger] first_hand_of(hands, x.0, h) && x == hands[h]
}

/// `c` lists the hands of those of `eligible` who have one, in their order.
pub open spec fn contest(
    c: Seq<(PlayerId, HoleCards)>,
    eligible: Seq<PlayerId>,
    hands: Seq<(PlayerId, HoleCards)>,
) -> bool {
    &&& seqs::is_told(owners(c), eligible, has_hand(hands), as_is())
    &&& forall|i: int| 0 <= i < c.len() ==> is_own_hand(hands, #[trigger] c[i])
}

/// The pot goes by the ranks of the hands of those who contest it, and by those
/// of all hands that were shown.
pub open spec fn goes_by_ranks(
    pot: PotModel,
    hands: Seq<(PlayerId, HoleCards)>,
    board: BoardModel,
    forfeiters: Set<u64>,
    to: (Seq<PlayerId>, bool),
    c: Seq<(PlayerId, HoleCards)>,
    in_pot: Seq<(PlayerId, HandRank)>,
    shown: Seq<(PlayerId, HandRank)>,
) -> bool {
    &&& contest(c, pot.eligible, hands)
    &&& exists|places: Seq<int>| #[trigger] eval::ranked_at(c, board, in_pot, places)
    &&& exists|places: Seq<int>| #[trigger] eval::ranked_at(hands, board, shown, places)
    &&& to == pots::recipients_by_rank(pot, in_pot, shown, forfeiters)
}

proof fn lemma_hand_among(hands: Seq<(PlayerId, HoleCards)>, p: PlayerId)
    ensures
        pots::shows(hands)(p) == has_hand(hands)(p),
        has_hand(hands)(p) ==> {
            let h = seqs::first_index(hands, pots::is_hand_of(p));
            first_hand_of(hands, p, h) && pots::hand_among(hands)(p) == hands[h]
        },
{
    let own = pots::is_hand_of(p);
    seqs::lemma_first_index(hands, own);
    let h = seqs::first_index(hands, own);
    if has_hand(hands)(p) {
        let g = choose|g: int| 0 <= g < hands.len() && (#[trigger] hands[g]).0 == p;
        assert(own(hands[g]));
        assert(h <= g);
        assert forall|f: int| 0 <= f < h implies (#[trigger] hands[f]).0 != p by {
            assert(!own(hands[f]));
        }
        assert(own(hands[h]));
    }
    if h < hands.len() {
        assert(own(hands[h]));
        assert(hands[h].0 == p);
    }
}

/// At a showdown a pot goes by the ranks of the hands of those who contest it.
pub proof fn law_pots_go_by_the_hands_shown(
    pot: PotModel,
    hands: Seq<(PlayerId, HoleCards)>,
    board: BoardModel,
    forfeiters: Set<u64>,
)
    ensures
        exists|
            c: Seq<(PlayerId, HoleCards)>,
            in_pot: Seq<(PlayerId, HandRank)>,
            shown: Seq<(PlayerId, HandRank)>,
        | #[trigger]
            goes_by_ranks(
                pot,
                hands,
                board,
                forfeiters,
                pots::showdown_recipients(pot, hands, board, forfeiters),
                c,
                in_pot,
                shown,
            ),
{
    let c = pots::contenders(pot.eligible, hands);
    let f = pots::hand_among(hands);
    let ids = owners(c);
    let places = seqs::lemma_pick_told(pot.eligible, pots::shows(hands), f);
    assert forall|i: int| 0 <= i < places.len() implies has_hand(hands)(
        pot.eligible[#[trigger] places[i]],
    ) && ids[i] == pot.eligible[places[i]] by {
        lemma_hand_among(hands, pot.eligible[places[i]]);
    }
    assert forall|k: int|
        0 <= k < pot.eligible.len() && has_hand(hands)(
            #[trigger] pot.eligible[k],
        ) implies places.contains(k) by {
        lemma_hand_among(hands, pot.eligible[k]);
        assert(pots::shows(hands)(pot.eligible[k]));
    }
    assert(seqs::told_at(ids, pot.eligible, has_hand(hands), as_is(), places));
    assert forall|i: int| 0 <= i < c.len() implies is_own_hand(hands, #[trigger] c[i]) by {
        let p = pot.eligible[places[i]];
        lemma_hand_among(hands, p);
        let h = seqs::first_index(hands, pots::is_hand_of(p));
        assert(c[i] == f(p));
        assert(first_hand_of(hands, c[i].0, h));
    }
    assert(contest(c, pot.eligible, hands));
    let in_pot = eval::ranking(c, board);
    let shown = eval::ranking(hands, board);
    eval::law_players_are_ranked_by_their_hands(c, board);
    eval::law_players_are_ranked_by_their_hands(hands, board);
    assert(goes_by_ranks(
        pot,
        hands,
        board,
        forfeiters,
        pots::showdown_recipients(pot, hands, board, forfeiters),
        c,
        in_pot,
        shown,
    ));
}

/// Who gets a pot where one player is left: what nobody matched goes back; the
/// player gets the pot where they have a part in it; else it goes back.
pub proof fn law_who_gets_a_pot_alone(pot: PotModel, lone: PlayerId)
    ensures
        pot.refund_to.len() > 0 ==> pots::lone_recipients(pot, Some(lone)) == (pot.refund_to, true)
            && pots::lone_recipients(pot, None) == (pot.refund_to, true),
        pot.refund_to.len() == 0 && pot.eligible.contains(lone) ==> pots::lone_recipients(
            pot,
            Some(lone),
        ) == (seq![lone], false),
        pot.refund_to.len() == 0 && !pot.eligible.contains(lone) ==> pots::lone_recipients(
            pot,
            Some(lone),
        ) == (pot.eligible, true),
        pot.refund_to.len() == 0 ==> pots::lone_recipients(pot, None) == (pot.eligible, true),
{
}

/// Who gets a pot of a hand that is broken off: what nobody matched goes back;
/// the survivors who have a part in the pot share it; all survivors where none
/// has; where nobody survives it goes back.
pub proof fn law_who_shares_a_pot_that_is_left(pot: PotModel, survivors: Seq<PlayerId>)
    ensures
        ({
            let r = pots::survivor_recipients(pot, survivors);
            let some = exists|i: int|
                0 <= i < pot.eligible.len() && survivors.contains(#[trigger] pot.eligible[i]);
            if pot.refund_to.len() > 0 {
                r == (pot.refund_to, true)
            } else if some {
                !r.1 && seqs::is_told(
                    r.0,
                    pot.eligible,
                    |p: PlayerId| survivors.contains(p),
                    |p: PlayerId| p,
                )
            } else if survivors.len() > 0 {
                r == (survivors, false)
            } else {
                r == (pot.eligible, true)
            }
        }),
{
    let keep = |p: PlayerId| survivors.contains(p);
    let same = |p: PlayerId| p;
    let test = pots::listed(survivors);
    let own = seqs::pick(pot.eligible, test, pots::itself());
    let places = seqs::lemma_pick_told(pot.eligible, test, pots::itself());
    assert(seqs::told_at(own, pot.eligible, keep, same, places)) by {
        assert forall|k: int| 0 <= k < pot.eligible.len() && keep(
            #[trigger] pot.eligible[k],
        ) implies places.contains(k) by {
            assert(test(pot.eligible[k]));
        }
    }
    if exists|i: int|
        0 <= i < pot.eligible.len() && survivors.contains(#[trigger] pot.eligible[i]) {
        let i = choose|i: int|
            0 <= i < pot.eligible.len() && survivors.contains(#[trigger] pot.eligible[i]);
        assert(test(pot.eligible[i]));
        assert(places.contains(i));
    } else if own.len() > 0 {
        assert(test(pot.eligible[places[0]]));
    }
}

// ---- all pots ----
/// Each pot with chips that somebody gets is shared out under its number; the
/// others have no outcome.
pub open spec fn one_by_one(
    outs: Seq<Option<PotResultModel>>,
    all: Seq<PotModel>,
    order: Map<u64, usize>,
    to: spec_fn(PotModel) -> (Seq<PlayerId>, bool),
) -> bool {
    &&& outs.len() == all.len()
    &&& forall|i: int|
        0 <= i < all.len() ==> #[trigger] outs[i] == if all[i].amount.0 > 0 && to(all[i]).0.len()
            > 0 {
            Some(pots::shared_out(i, all[i], to(all[i]).0, to(all[i]).1, order))
        } else {
            None
        }
    &&& seqs::is_told(
        seqs::flatten(outs),
        outs,
        |o: Option<PotResultModel>| o is Some,
        |o: Option<PotResultModel>| o->Some_0,
    )
}

proof fn lemma_flatten_told<A>(outs: Seq<Option<A>>) -> (places: Seq<int>)
    ensures
        seqs::told_at(
            seqs::flatten(outs),
            outs,
            |o: Option<A>| o is Some,
            |o: Option<A>| o->Some_0,
            places,
        ),
    decreases outs.len(),
{
    let keep = |o: Option<A>| o is Some;
    let f = |o: Option<A>| o->Some_0;
    lemma_flatten_picks(outs, keep, f);
    seqs::lemma_pick_told(outs, keep, f)
}

proof fn lemma_flatten_picks<A>(
    outs: Seq<Option<A>>,
    keep: spec_fn(Option<A>) -> bool,
    f: spec_fn(Option<A>) -> A,
)
    requires
        forall|o: Option<A>| #[trigger] keep(o) == (o is Some),
        forall|o: Option<A>| o is Some ==> #[trigger] f(o) == o->Some_0,
    ensures
        seqs::flatten(outs) == seqs::pick(outs, keep, f),
    decreases outs.len(),
{
    if outs.len() > 0 {
        lemma_flatten_picks(outs.drop_last(), keep, f);
        assert(keep(outs.last()) == (outs.last() is Some));
        if outs.last() is Some {
            assert(f(outs.last()) == outs.last()->Some_0);
        }
    }
}

/// However a hand ends, its pots are shared out one by one.
pub proof fn law_pots_are_shared_out_one_by_one(
    all: Seq<PotModel>,
    hands: Seq<(PlayerId, HoleCards)>,
    board: BoardModel,
    order: Map<u64, usize>,
    forfeiters: Set<u64>,
    lone: Option<PlayerId>,
    survivors: Seq<PlayerId>,
)
    ensures
        one_by_one(
            pots::showdown_outcomes(all, hands, board, order, forfeiters),
            all,
            order,
            |p: PotModel| pots::showdown_recipients(p, hands, board, forfeiters),
        ),
        one_by_one(
            pots::lone_outcomes(all, lone, order),
            all,
            order,
            |p: PotModel| pots::lone_recipients(p, lone),
        ),
        one_by_one(
            pots::survivor_outcomes(all, survivors, order),
            all,
            order,
            |p: PotModel| pots::survivor_recipients(p, survivors),
        ),
{
    lemma_flatten_told(pots::showdown_outcomes(all, hands, board, order, forfeiters));
    lemma_flatten_told(pots::lone_outcomes(all, lone, order));
    lemma_flatten_told(pots::survivor_outcomes(all, survivors, order));
}

} // verus!
