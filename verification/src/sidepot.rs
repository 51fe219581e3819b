//! Main and side pots from what each player has put in.
//!
//! The pots are layers: each distinct stake is the cap of a layer, which takes
//! from every player what lies between the cap below and its own. A player who
//! is still in the hand contests the layers up to the player's own stake.

use crate::player::{Chips, PlayerId};
use crate::seqs;
use vstd::prelude::*;

verus! {

/// A pot that a group of players contests, or that goes back to its givers.
#[derive(Debug, PartialEq, Eq)]
pub struct SidePot {
    /// The stake up to which the pot takes chips.
    pub cap: Chips,
    /// The chips in the pot.
    pub amount: Chips,
    /// Who contests it.
    pub eligible: Vec<PlayerId>,
    /// Who gets it back, where nobody matched it.
    pub refund_to: Vec<PlayerId>,
}

/// A pot as a mathematical value.
#[verifier::ext_equal]
pub struct PotModel {
    pub cap: Chips,
    pub amount: Chips,
    pub eligible: Seq<PlayerId>,
    pub refund_to: Seq<PlayerId>,
}

impl View for SidePot {
    type V = PotModel;

    open spec fn view(&self) -> PotModel {
        PotModel {
            cap: self.cap,
            amount: self.amount,
            eligible: self.eligible@,
            refund_to: self.refund_to@,
        }
    }
}

impl Clone for SidePot {
    fn clone(&self) -> (r: Self)
        ensures
            r@ == self@,
    {
        SidePot {
            cap: self.cap,
            amount: self.amount,
            eligible: self.eligible.clone(),
            refund_to: self.refund_to.clone(),
        }
    }
}

/// The mathematical values of a list of pots.
pub open spec fn pots_view(s: Seq<SidePot>) -> Seq<PotModel> {
    Seq::new(s.len(), |i: int| s[i]@)
}

/// The chips in a pot.
pub open spec fn pot_amount() -> spec_fn(PotModel) -> int {
    |p: PotModel| p.amount.0 as int
}

/// The chips in all of `pots`.
pub open spec fn pots_total(pots: Seq<PotModel>) -> int {
    seqs::sum_of(pots, pot_amount())
}

/// What one player has put in, and whether the player is still in the hand.
#[derive(Debug, Clone, Copy)]
pub struct Stake {
    pub player_id: PlayerId,
    pub amount: u32,
    pub live: bool,
}

pub open spec fn stake_id() -> spec_fn(Stake) -> PlayerId {
    |s: Stake| s.player_id
}

pub open spec fn stake_amount() -> spec_fn(Stake) -> int {
    |s: Stake| s.amount as int
}

pub open spec fn stake_live() -> spec_fn(Stake) -> bool {
    |s: Stake| s.live
}

/// The test for stakes above `prev`.
pub open spec fn above(prev: int) -> spec_fn(Stake) -> bool {
    |s: Stake| s.amount > prev
}

/// The test for stakes that contest the layer with the cap `level`.
pub open spec fn contests(level: int) -> spec_fn(Stake) -> bool {
    |s: Stake| s.live && s.amount >= level
}

/// What a stake puts in above `prev`.
pub open spec fn excess(prev: int) -> spec_fn(Stake) -> int {
    |s: Stake|
        if s.amount > prev {
            s.amount - prev
        } else {
            0
        }
}

/// What a stake puts in between `prev` and `level`.
pub open spec fn slice(prev: int, level: int) -> spec_fn(Stake) -> int {
    |s: Stake|
        if s.amount <= prev {
            0
        } else if s.amount >= level {
            level - prev
        } else {
            s.amount - prev
        }
}

/// The smallest stake above `prev`; `prev` itself where there is none.
pub open spec fn next_level(stakes: Seq<Stake>, prev: int) -> int
    decreases stakes.len(),
{
    if stakes.len() == 0 {
        prev
    } else {
        let rest = next_level(stakes.drop_last(), prev);
        let a = stakes.last().amount as int;
        if a > prev && (rest <= prev || a < rest) {
            a
        } else {
            rest
        }
    }
}

/// The layer that takes the chips between `prev` and `level`.
pub open spec fn layer(stakes: Seq<Stake>, prev: int, level: int) -> PotModel {
    let eligible = seqs::pick(stakes, contests(level), stake_id());
    let givers = seqs::pick(stakes, above(prev), stake_id());
    PotModel {
        cap: Chips(level as u32),
        amount: Chips(seqs::sum_of(stakes, slice(prev, level)) as u32),
        eligible,
        refund_to: if eligible.len() == 0 {
            givers
        } else if eligible.len() == 1 && givers == eligible {
            eligible
        } else {
            Seq::empty()
        },
    }
}

/// The layers above `prev`, lowest first.
pub open spec fn layers(stakes: Seq<Stake>, prev: int) -> Seq<PotModel>
    decreases u32::MAX - prev,
{
    proof {
        lemma_next_level(stakes, prev);
    }
    let level = next_level(stakes, prev);
    if level <= prev {
        Seq::empty()
    } else {
        seq![layer(stakes, prev, level)] + layers(stakes, level)
    }
}

/// `pots` with `p` on top: joined to the last pot where the same players
/// contest both and the same players would get both back.
pub open spec fn stacked(pots: Seq<PotModel>, p: PotModel) -> Seq<PotModel> {
    if pots.len() > 0 && pots.last().eligible == p.eligible && pots.last().refund_to
        == p.refund_to {
        pots.drop_last().push(
            PotModel {
                cap: if p.cap.0 > pots.last().cap.0 {
                    p.cap
                } else {
                    pots.last().cap
                },
                amount: Chips((pots.last().amount.0 + p.amount.0) as u32),
                ..p
            },
        )
    } else {
        pots.push(p)
    }
}

/// The pots that come of stacking `s` from the bottom up.
pub open spec fn merged(s: Seq<PotModel>) -> Seq<PotModel>
    decreases s.len(),
{
    if s.len() == 0 {
        Seq::empty()
    } else {
        stacked(merged(s.drop_last()), s.last())
    }
}

/// All the chips of `stakes` in pots, whoever is left in the hand.
pub open spec fn all_pots(stakes: Seq<Stake>) -> Seq<PotModel> {
    merged(layers(stakes, 0))
}

/// The pots of a hand in which the players have put in `stakes`. There are none
/// where nobody is left in the hand.
pub open spec fn pots_of(stakes: Seq<Stake>) -> Seq<PotModel> {
    if seqs::count_of(stakes, stake_live()) == 0 {
        Seq::empty()
    } else {
        all_pots(stakes)
    }
}

/// What [`next_level`] finds.
pub proof fn lemma_next_level(stakes: Seq<Stake>, prev: int)
    ensures
        prev <= next_level(stakes, prev),
        next_level(stakes, prev) > prev ==> next_level(stakes, prev) <= u32::MAX && exists|i: int|
            0 <= i < stakes.len() && #[trigger] stakes[i].amount == next_level(stakes, prev),
        forall|i: int|
            0 <= i < stakes.len() && (#[trigger] stakes[i]).amount > prev ==> prev < next_level(
                stakes,
                prev,
            ) <= stakes[i].amount,
    decreases stakes.len(),
{
    if stakes.len() > 0 {
        let t = stakes.drop_last();
        lemma_next_level(t, prev);
        let rest = next_level(t, prev);
        let n = stakes.len() - 1;
        if next_level(stakes, prev) > prev {
            if next_level(stakes, prev) == stakes.last().amount {
                assert(stakes[n].amount == next_level(stakes, prev));
            } else {
                let i = choose|i: int| 0 <= i < t.len() && #[trigger] t[i].amount == rest;
                assert(stakes[i].amount == rest);
            }
        }
        assert forall|i: int|
            0 <= i < stakes.len() && (#[trigger] stakes[i]).amount > prev implies prev
            < next_level(stakes, prev) <= stakes[i].amount by {
            if i < n {
                assert(t[i] == stakes[i]);
            }
        }
    }
}

/// The layers above `prev` hold what the stakes put in above `prev`.
pub proof fn lemma_layers_total(stakes: Seq<Stake>, prev: int)
    requires
        0 <= prev,
        seqs::sum_of(stakes, stake_amount()) <= u32::MAX,
    ensures
        pots_total(layers(stakes, prev)) == seqs::sum_of(stakes, excess(prev)),
    decreases u32::MAX - prev,
{
    lemma_next_level(stakes, prev);
    let level = next_level(stakes, prev);
    if level <= prev {
        assert forall|i: int| 0 <= i < stakes.len() implies excess(prev)(#[trigger] stakes[i])
            == 0 by {}
        lemma_sum_zero(stakes, excess(prev));
    } else {
        lemma_layers_total(stakes, level);
        seqs::lemma_sum_split(stakes, excess(prev), slice(prev, level), excess(level));
        lemma_slice_fits(stakes, prev, level);
        let l = layer(stakes, prev, level);
        seqs::lemma_sum_concat(seq![l], layers(stakes, level), pot_amount());
        seqs::lemma_sum_push(Seq::<PotModel>::empty(), l, pot_amount());
        assert(Seq::<PotModel>::empty().push(l) =~= seq![l]);
    }
}

pub proof fn lemma_sum_zero<A>(s: Seq<A>, f: spec_fn(A) -> int)
    requires
        forall|i: int| 0 <= i < s.len() ==> f(#[trigger] s[i]) == 0,
    ensures
        seqs::sum_of(s, f) == 0,
    decreases s.len(),
{
    if s.len() > 0 {
        assert forall|i: int| 0 <= i < s.drop_last().len() implies f(#[trigger] s.drop_last()[i])
            == 0 by {
            assert(s.drop_last()[i] == s[i]);
        }
        lemma_sum_zero(s.drop_last(), f);
        assert(f(s[s.len() - 1]) == 0);
    }
}

/// A layer holds no more than all the stakes together.
pub proof fn lemma_slice_fits(stakes: Seq<Stake>, prev: int, level: int)
    requires
        0 <= prev < level,
    ensures
        0 <= seqs::sum_of(stakes, slice(prev, level)) <= seqs::sum_of(stakes, stake_amount()),
    decreases stakes.len(),
{
    if stakes.len() > 0 {
        lemma_slice_fits(stakes.drop_last(), prev, level);
    }
}

/// Stacking a pot keeps the chips.
pub proof fn lemma_stacked_total(pots: Seq<PotModel>, p: PotModel)
    requires
        pots_total(pots) + p.amount.0 <= u32::MAX,
    ensures
        pots_total(stacked(pots, p)) == pots_total(pots) + p.amount.0,
{
    if pots.len() > 0 && pots.last().eligible == p.eligible && pots.last().refund_to
        == p.refund_to {
        let joined = stacked(pots, p).last();
        let rest = pots.drop_last();
        seqs::lemma_sum_push(rest, joined, pot_amount());
        seqs::lemma_sum_nonneg(rest, pot_amount());
        assert(pots_total(pots) == pots_total(rest) + pots.last().amount.0);
    } else {
        seqs::lemma_sum_push(pots, p, pot_amount());
    }
}

/// Merging keeps the chips.
pub proof fn lemma_merged_total(s: Seq<PotModel>)
    requires
        pots_total(s) <= u32::MAX,
    ensures
        pots_total(merged(s)) == pots_total(s),
    decreases s.len(),
{
    if s.len() > 0 {
        lemma_merged_total(s.drop_last());
        lemma_stacked_total(merged(s.drop_last()), s.last());
    }
}

/// The pots hold exactly the chips that were put in. So do the pots of the
/// hand, where somebody is left in it.
pub proof fn law_pots_hold_all_stakes(stakes: Seq<Stake>)
    requires
        seqs::sum_of(stakes, stake_amount()) <= u32::MAX,
    ensures
        pots_total(all_pots(stakes)) == seqs::sum_of(stakes, stake_amount()),
        seqs::count_of(stakes, stake_live()) > 0 ==> pots_total(pots_of(stakes)) == seqs::sum_of(
            stakes,
            stake_amount(),
        ),
{
    lemma_layers_total(stakes, 0);
    seqs::lemma_sum_same(stakes, stakes, excess(0), stake_amount());
    lemma_merged_total(layers(stakes, 0));
}

/// A pot that can be settled: it holds chips, somebody contests it or gets it
/// back, and nobody is named twice in either list or is not among `ids`.
pub open spec fn settleable(p: PotModel, ids: Seq<PlayerId>) -> bool {
    &&& p.amount.0 > 0
    &&& p.eligible.len() > 0 || p.refund_to.len() > 0
    &&& seqs::distinct(p.eligible)
    &&& seqs::distinct(p.refund_to)
    &&& p.eligible.len() <= ids.len()
    &&& p.refund_to.len() <= ids.len()
    &&& forall|i: int| 0 <= i < p.eligible.len() ==> ids.contains(#[trigger] p.eligible[i])
    &&& forall|i: int| 0 <= i < p.refund_to.len() ==> ids.contains(#[trigger] p.refund_to[i])
}

pub open spec fn all_settleable(pots: Seq<PotModel>, ids: Seq<PlayerId>) -> bool {
    forall|i: int| 0 <= i < pots.len() ==> settleable(#[trigger] pots[i], ids)
}

/// The players behind `stakes`.
pub open spec fn stake_ids(stakes: Seq<Stake>) -> Seq<PlayerId> {
    Seq::new(stakes.len(), |i: int| stakes[i].player_id)
}

proof fn lemma_picked_ids(stakes: Seq<Stake>, keep: spec_fn(Stake) -> bool)
    requires
        seqs::distinct(stake_ids(stakes)),
    ensures
        seqs::distinct(seqs::pick(stakes, keep, stake_id())),
        seqs::pick(stakes, keep, stake_id()).len() <= stakes.len(),
        forall|i: int|
            0 <= i < seqs::pick(stakes, keep, stake_id()).len() ==> stake_ids(stakes).contains(
                #[trigger] seqs::pick(stakes, keep, stake_id())[i],
            ),
{
    let ids = stake_ids(stakes);
    assert forall|i: int, j: int|
        #![trigger stakes[i], stakes[j]]
        0 <= i < j < stakes.len() implies stake_id()(stakes[i]) != stake_id()(stakes[j]) by {
        assert(ids[i] != ids[j]);
    }
    seqs::lemma_pick_distinct(stakes, keep, stake_id());
    seqs::lemma_pick_from(stakes, keep, stake_id());
    seqs::lemma_count_bounds(stakes, keep);
    assert forall|k: int| 0 <= k < seqs::pick(stakes, keep, stake_id()).len() implies ids.contains(
        #[trigger] seqs::pick(stakes, keep, stake_id())[k],
    ) by {
        assert(seqs::comes_from(stakes, keep, stake_id(), seqs::pick(stakes, keep, stake_id())[k]));
        let i = choose|i: int|
            0 <= i < stakes.len() && keep(
                #[trigger] stakes[i],
            ) && stake_id()(stakes[i]) == seqs::pick(
                stakes,
                keep,
                stake_id(),
            )[k];
        assert(ids[i] == stakes[i].player_id);
    }
}

proof fn lemma_layer_settleable(stakes: Seq<Stake>, prev: int)
    requires
        0 <= prev,
        seqs::distinct(stake_ids(stakes)),
        seqs::sum_of(stakes, stake_amount()) <= u32::MAX,
        next_level(stakes, prev) > prev,
    ensures
        settleable(layer(stakes, prev, next_level(stakes, prev)), stake_ids(stakes)),
{
    let level = next_level(stakes, prev);
    lemma_next_level(stakes, prev);
    let i = choose|i: int| 0 <= i < stakes.len() && #[trigger] stakes[i].amount == level;
    lemma_picked_ids(stakes, contests(level));
    lemma_picked_ids(stakes, above(prev));
    lemma_slice_fits(stakes, prev, level);
    assert(slice(prev, level)(stakes[i]) == level - prev);
    seqs::lemma_sum_member(stakes, i, slice(prev, level));
    assert(above(prev)(stakes[i]));
    seqs::lemma_pick_has(stakes, i, above(prev), stake_id());
}

proof fn lemma_layers_settleable(stakes: Seq<Stake>, prev: int)
    requires
        0 <= prev,
        seqs::distinct(stake_ids(stakes)),
        seqs::sum_of(stakes, stake_amount()) <= u32::MAX,
    ensures
        all_settleable(layers(stakes, prev), stake_ids(stakes)),
    decreases u32::MAX - prev,
{
    lemma_next_level(stakes, prev);
    let level = next_level(stakes, prev);
    if level > prev {
        lemma_layer_settleable(stakes, prev);
        lemma_layers_settleable(stakes, level);
        let rest = layers(stakes, level);
        let all = layers(stakes, prev);
        assert forall|i: int| 0 <= i < all.len() implies settleable(
            #[trigger] all[i],
            stake_ids(stakes),
        ) by {
            if i > 0 {
                assert(all[i] == rest[i - 1]);
            }
        }
    }
}

proof fn lemma_merged_settleable(s: Seq<PotModel>, ids: Seq<PlayerId>)
    requires
        all_settleable(s, ids),
        pots_total(s) <= u32::MAX,
    ensures
        all_settleable(merged(s), ids),
    decreases s.len(),
{
    if s.len() > 0 {
        let t = s.drop_last();
        assert forall|i: int| 0 <= i < t.len() implies settleable(#[trigger] t[i], ids) by {
            assert(t[i] == s[i]);
        }
        assert(settleable(s[s.len() - 1], ids));
        lemma_merged_settleable(t, ids);
        lemma_merged_total(t);
        let m = merged(t);
        if m.len() > 0 {
            seqs::lemma_sum_member(m, m.len() - 1, pot_amount());
        }
        assert forall|i: int| 0 <= i < merged(s).len() implies settleable(
            #[trigger] merged(s)[i],
            ids,
        ) by {
            if i < m.len() {
                assert(settleable(m[i], ids));
            }
        }
    }
}

/// Every pot of a hand of distinct players can be settled.
pub proof fn lemma_pots_settleable(stakes: Seq<Stake>)
    requires
        seqs::distinct(stake_ids(stakes)),
        seqs::sum_of(stakes, stake_amount()) <= u32::MAX,
    ensures
        all_settleable(all_pots(stakes), stake_ids(stakes)),
        all_settleable(pots_of(stakes), stake_ids(stakes)),
{
    lemma_layers_settleable(stakes, 0);
    lemma_layers_total(stakes, 0);
    seqs::lemma_sum_same(stakes, stakes, excess(0), stake_amount());
    lemma_merged_settleable(layers(stakes, 0), stake_ids(stakes));
}

/// The test for stakes above `prev` and not above `level`.
pub open spec fn between(prev: int, level: int) -> spec_fn(Stake) -> bool {
    |s: Stake| prev < s.amount <= level
}

/// As many items are picked as satisfy the test.
proof fn lemma_pick_len<A, B>(s: Seq<A>, keep: spec_fn(A) -> bool, f: spec_fn(A) -> B)
    ensures
        seqs::pick(s, keep, f).len() == seqs::count_of(s, keep),
    decreases s.len(),
{
    if s.len() > 0 {
        lemma_pick_len(s.drop_last(), keep, f);
    }
}

/// Nobody contests a layer where nobody is left.
proof fn lemma_nobody_contests(stakes: Seq<Stake>, level: int)
    requires
        seqs::count_of(stakes, stake_live()) == 0,
    ensures
        seqs::pick(stakes, contests(level), stake_id()).len() == 0,
    decreases stakes.len(),
{
    if stakes.len() > 0 {
        seqs::lemma_count_bounds(stakes.drop_last(), stake_live());
        lemma_nobody_contests(stakes.drop_last(), level);
    }
}

/// Where nobody is left, each layer goes back to fewer players than the layer below.
proof fn lemma_unclaimed_layers(stakes: Seq<Stake>, prev: int)
    requires
        0 <= prev,
        seqs::count_of(stakes, stake_live()) == 0,
    ensures
        ({
            let all = layers(stakes, prev);
            &&& forall|i: int|
                0 <= i < all.len() ==> (#[trigger] all[i]).refund_to.len() <= seqs::count_of(
                    stakes,
                    above(prev),
                )
            &&& forall|i: int, j: int|
                #![trigger all[i], all[j]]
                0 <= i < j < all.len() ==> all[i].refund_to.len() > all[j].refund_to.len()
        }),
    decreases u32::MAX - prev,
{
    lemma_next_level(stakes, prev);
    let level = next_level(stakes, prev);
    if level > prev {
        lemma_unclaimed_layers(stakes, level);
        lemma_nobody_contests(stakes, level);
        lemma_pick_len(stakes, above(prev), stake_id());
        let k = choose|k: int| 0 <= k < stakes.len() && #[trigger] stakes[k].amount == level;
        seqs::lemma_count_positive(stakes, k, between(prev, level));
        seqs::lemma_count_split(stakes, above(prev), between(prev, level), above(level));
        let rest = layers(stakes, level);
        let all = layers(stakes, prev);
        assert(all[0].refund_to.len() == seqs::count_of(stakes, above(prev)));
        assert forall|i: int| 0 <= i < all.len() implies (#[trigger] all[i]).refund_to.len()
            <= seqs::count_of(stakes, above(prev)) by {
            if i > 0 {
                assert(all[i] == rest[i - 1]);
            }
        }
        assert forall|i: int, j: int| #![trigger all[i], all[j]] 0 <= i < j < all.len(
        ) implies all[i].refund_to.len() > all[j].refund_to.len() by {
            assert(all[j] == rest[j - 1]);
            if i > 0 {
                assert(all[i] == rest[i - 1]);
            }
        }
    }
}

/// Pots that go back to different players are not joined.
proof fn lemma_merged_apart(s: Seq<PotModel>)
    requires
        forall|i: int, j: int|
            #![trigger s[i], s[j]]
            0 <= i < j < s.len() ==> s[i].refund_to.len() > s[j].refund_to.len(),
    ensures
        merged(s) == s,
    decreases s.len(),
{
    if s.len() > 0 {
        let t = s.drop_last();
        assert forall|i: int, j: int| #![trigger t[i], t[j]] 0 <= i < j < t.len(
        ) implies t[i].refund_to.len() > t[j].refund_to.len() by {
            assert(s[i].refund_to.len() > s[j].refund_to.len());
        }
        lemma_merged_apart(t);
        if t.len() > 0 {
            assert(s[t.len() - 1].refund_to.len() > s[t.len() as int].refund_to.len());
        }
        assert(t.push(s.last()) =~= s);
    }
}

/// Where nobody is left, the pots are the layers, and each goes back.
pub proof fn lemma_unclaimed_pots(stakes: Seq<Stake>)
    requires
        seqs::count_of(stakes, stake_live()) == 0,
    ensures
        all_pots(stakes) == layers(stakes, 0),
{
    lemma_unclaimed_layers(stakes, 0);
    lemma_merged_apart(layers(stakes, 0));
}

/// A layer takes the same from each player who gives to it.
proof fn lemma_equal_slices(stakes: Seq<Stake>, prev: int, level: int)
    requires
        forall|i: int|
            0 <= i < stakes.len() && (#[trigger] stakes[i]).amount > prev ==> prev < level
                <= stakes[i].amount,
    ensures
        seqs::sum_of(stakes, slice(prev, level)) == seqs::count_of(stakes, above(prev)) * (level
            - prev),
    decreases stakes.len(),
{
    let d = level - prev;
    if stakes.len() > 0 {
        let t = stakes.drop_last();
        assert forall|i: int| 0 <= i < t.len() && (#[trigger] t[i]).amount > prev implies prev
            < level <= t[i].amount by {
            assert(t[i] == stakes[i]);
        }
        lemma_equal_slices(t, prev, level);
        let c = seqs::count_of(t, above(prev));
        assert((c + 1) * d == c * d + d) by (nonlinear_arith);
        assert(stakes[stakes.len() - 1] == stakes.last());
    } else {
        assert(0 * d == 0) by (nonlinear_arith);
    }
}

/// Where nobody is left, a layer goes back to those who gave to it, and each
/// of them gave the same.
pub proof fn lemma_unclaimed_layer(stakes: Seq<Stake>, prev: int)
    requires
        0 <= prev < next_level(stakes, prev),
        seqs::count_of(stakes, stake_live()) == 0,
        seqs::distinct(stake_ids(stakes)),
        seqs::sum_of(stakes, stake_amount()) <= u32::MAX,
    ensures
        ({
            let level = next_level(stakes, prev);
            let l = layer(stakes, prev, level);
            &&& l.refund_to == seqs::pick(stakes, above(prev), stake_id())
            &&& l.refund_to.len() > 0
            &&& seqs::distinct(l.refund_to)
            &&& l.amount.0 == l.refund_to.len() * (level - prev)
            &&& level <= u32::MAX
            &&& forall|k: int|
                0 <= k < stakes.len() ==> l.refund_to.contains((#[trigger] stakes[k]).player_id)
                    == (stakes[k].amount > prev)
            &&& forall|k: int|
                0 <= k < stakes.len() ==> slice(prev, level)(#[trigger] stakes[k]) == if (
                stakes[k].amount > prev) {
                    level - prev
                } else {
                    0
                }
        }),
{
    let level = next_level(stakes, prev);
    let l = layer(stakes, prev, level);
    lemma_next_level(stakes, prev);
    lemma_nobody_contests(stakes, level);
    lemma_layer_settleable(stakes, prev);
    lemma_equal_slices(stakes, prev, level);
    lemma_slice_fits(stakes, prev, level);
    lemma_pick_len(stakes, above(prev), stake_id());
    seqs::lemma_pick_from(stakes, above(prev), stake_id());
    let ids = stake_ids(stakes);
    assert forall|k: int| 0 <= k < stakes.len() implies l.refund_to.contains(
        (#[trigger] stakes[k]).player_id,
    ) == (stakes[k].amount > prev) by {
        if stakes[k].amount > prev {
            seqs::lemma_pick_has(stakes, k, above(prev), stake_id());
        } else if l.refund_to.contains(stakes[k].player_id) {
            let j = choose|j: int| 0 <= j < l.refund_to.len() && l.refund_to[j]
                == stakes[k].player_id;
            assert(seqs::comes_from(stakes, above(prev), stake_id(), l.refund_to[j]));
            let i = choose|i: int|
                0 <= i < stakes.len() && above(prev)(#[trigger] stakes[i]) && stake_id()(stakes[i])
                    == l.refund_to[j];
            assert(ids[i] == ids[k]);
        }
    }
}

/// Every pot is contested by exactly the players who are in the hand and whose
/// stakes reach its cap, in the order of the stakes; and the caps ascend.
pub open spec fn well_layered(pots: Seq<PotModel>, stakes: Seq<Stake>) -> bool {
    &&& forall|i: int|
        0 <= i < pots.len() ==> (#[trigger] pots[i]).eligible == seqs::pick(
            stakes,
            contests(pots[i].cap.0 as int),
            stake_id(),
        )
    &&& forall|i: int, j: int|
        #![trigger pots[i], pots[j]]
        0 <= i < j < pots.len() ==> pots[i].cap.0 < pots[j].cap.0
}

proof fn lemma_layers_well_layered(stakes: Seq<Stake>, prev: int)
    requires
        0 <= prev,
    ensures
        well_layered(layers(stakes, prev), stakes),
        forall|i: int|
            0 <= i < layers(stakes, prev).len() ==> (#[trigger] layers(stakes, prev)[i]).cap.0
                > prev,
    decreases u32::MAX - prev,
{
    lemma_next_level(stakes, prev);
    let level = next_level(stakes, prev);
    if level > prev {
        lemma_layers_well_layered(stakes, level);
        let rest = layers(stakes, level);
        let all = layers(stakes, prev);
        assert(all[0].cap.0 == level);
        assert forall|i: int| 0 <= i < all.len() implies (#[trigger] all[i]).cap.0 > prev
            && all[i].eligible == seqs::pick(
            stakes,
            contests(all[i].cap.0 as int),
            stake_id(),
        ) by {
            if i > 0 {
                assert(all[i] == rest[i - 1]);
            }
        }
        assert forall|i: int, j: int| #![trigger all[i], all[j]] 0 <= i < j < all.len(
        ) implies all[i].cap.0
            < all[j].cap.0 by {
            assert(all[j] == rest[j - 1]);
            if i > 0 {
                assert(all[i] == rest[i - 1]);
            }
        }
    }
}

proof fn lemma_merged_well_layered(s: Seq<PotModel>, stakes: Seq<Stake>)
    requires
        well_layered(s, stakes),
    ensures
        well_layered(merged(s), stakes),
        s.len() > 0 ==> merged(s).len() > 0 && merged(s).last().cap == s.last().cap,
    decreases s.len(),
{
    if s.len() > 0 {
        let t = s.drop_last();
        assert forall|i: int| 0 <= i < t.len() implies (#[trigger] t[i]).eligible == seqs::pick(
            stakes,
            contests(t[i].cap.0 as int),
            stake_id(),
        ) by {
            assert(t[i] == s[i]);
        }
        assert forall|i: int, j: int| #![trigger t[i], t[j]] 0 <= i < j < t.len() implies t[i].cap.0
            < t[j].cap.0 by {
            assert(t[i] == s[i] && t[j] == s[j]);
        }
        lemma_merged_well_layered(t, stakes);
        let m = merged(t);
        let out = merged(s);
        let p = s[s.len() - 1];
        if t.len() > 0 {
            assert(s[t.len() - 1].cap.0 < p.cap.0);
        }
        assert(out.last().cap == p.cap && out.last().eligible == p.eligible);
        assert forall|i: int| 0 <= i < out.len() implies (#[trigger] out[i]).eligible
            == seqs::pick(stakes, contests(out[i].cap.0 as int), stake_id()) by {
            if i < out.len() - 1 {
                assert(out[i] == m[i]);
            }
        }
        assert forall|i: int, j: int| #![trigger out[i], out[j]] 0 <= i < j < out.len(
        ) implies out[i].cap.0
            < out[j].cap.0 by {
            assert(out[i] == m[i]);
            assert(m[i].cap.0 <= m.last().cap.0) by {
                if i < m.len() - 1 {
                    assert(m[i].cap.0 < m[m.len() - 1].cap.0);
                }
            }
            if j < out.len() - 1 {
                assert(out[j] == m[j]);
            }
        }
    }
}

/// Each pot is contested by exactly the players left whose stakes reach its
/// cap, so a player who folded contests none; and the caps ascend.
pub proof fn law_pots_are_contested_by_the_stakes_that_reach_them(stakes: Seq<Stake>)
    ensures
        well_layered(pots_of(stakes), stakes),
{
    lemma_layers_well_layered(stakes, 0);
    lemma_merged_well_layered(layers(stakes, 0), stakes);
}

/// What a stake puts into a pot that takes the chips between `lo` and `hi`.
pub open spec fn taken(lo: int, hi: int) -> spec_fn(Stake) -> int {
    |s: Stake|
        (if s.amount < hi {
            s.amount as int
        } else {
            hi
        }) - (if s.amount < lo {
            s.amount as int
        } else {
            lo
        })
}

/// Nobody who is in the hand reaches `level`.
pub open spec fn out_of_reach(stakes: Seq<Stake>, level: int) -> bool {
    forall|j: int|
        0 <= j < stakes.len() && (#[trigger] stakes[j]).live ==> stakes[j].amount < level
}

/// Nobody but the player of the stake at `k` has put in more than `lo`.
pub open spec fn alone_above(stakes: Seq<Stake>, lo: int, k: int) -> bool {
    forall|j: int| 0 <= j < stakes.len() && (#[trigger] stakes[j]).amount > lo ==> j == k
}

/// The pot takes what each player has put in between `lo` and its cap. It is
/// contested by those in the hand who have put in as much as the cap, and no
/// player in the hand stops halfway through it. It goes back to those who gave
/// to it where nobody contests it, and to the only one who gave to it where
/// that player is in the hand.
pub open spec fn takes_layer(p: PotModel, lo: int, stakes: Seq<Stake>) -> bool {
    &&& lo < p.cap.0
    &&& p.amount.0 == seqs::sum_of(stakes, taken(lo, p.cap.0 as int))
    &&& forall|k: int|
        0 <= k < stakes.len() ==> p.eligible.contains((#[trigger] stakes[k]).player_id) == (
        stakes[k].live && stakes[k].amount >= p.cap.0)
    &&& forall|k: int|
        0 <= k < stakes.len() && (#[trigger] stakes[k]).live ==> stakes[k].amount <= lo
            || stakes[k].amount >= p.cap.0
    &&& forall|k: int|
        0 <= k < stakes.len() ==> p.refund_to.contains((#[trigger] stakes[k]).player_id) == (
        stakes[k].amount > lo && (out_of_reach(stakes, p.cap.0 as int) || (stakes[k].live
            && alone_above(stakes, lo, k))))
}

/// The pot at place `i` lies on the one below it, or on `lo`.
pub open spec fn lies_right(pots: Seq<PotModel>, i: int, lo: int, stakes: Seq<Stake>) -> bool {
    takes_layer(
        pots[i],
        if i == 0 {
            lo
        } else {
            pots[i - 1].cap.0 as int
        },
        stakes,
    )
}

/// The pots lie one on the other, the lowest on `lo`.
pub open spec fn piled(pots: Seq<PotModel>, lo: int, stakes: Seq<Stake>) -> bool {
    forall|i: int| 0 <= i < pots.len() ==> #[trigger] lies_right(pots, i, lo, stakes)
}

/// The pot at place `i` is for other players than the one below it.
pub open spec fn stands_apart(pots: Seq<PotModel>, i: int) -> bool {
    pots[i].eligible != pots[i - 1].eligible || pots[i].refund_to != pots[i - 1].refund_to
}

/// The pots are the layers of the stakes: they lie one on the other from nothing
/// up to the largest stake, and no two that lie on one another are for the same players.
pub open spec fn layered_right(pots: Seq<PotModel>, stakes: Seq<Stake>) -> bool {
    &&& piled(pots, 0, stakes)
    &&& forall|k: int|
        0 <= k < stakes.len() && (#[trigger] stakes[k]).amount > 0 ==> pots.len() > 0
            && stakes[k].amount <= pots.last().cap.0
    &&& forall|i: int|
        0 < i < pots.len() ==> #[trigger] stands_apart(pots, i)
    &&& all_settleable(pots, stake_ids(stakes))
}

/// Which of distinct players are picked.
proof fn lemma_picked_iff(stakes: Seq<Stake>, keep: spec_fn(Stake) -> bool)
    requires
        seqs::distinct(stake_ids(stakes)),
    ensures
        forall|k: int|
            0 <= k < stakes.len() ==> seqs::pick(stakes, keep, stake_id()).contains(
                (#[trigger] stakes[k]).player_id,
            ) == keep(stakes[k]),
{
    let picked = seqs::pick(stakes, keep, stake_id());
    let ids = stake_ids(stakes);
    seqs::lemma_pick_from(stakes, keep, stake_id());
    assert forall|k: int| 0 <= k < stakes.len() implies picked.contains(
        (#[trigger] stakes[k]).player_id,
    ) == keep(stakes[k]) by {
        if keep(stakes[k]) {
            seqs::lemma_pick_has(stakes, k, keep, stake_id());
        } else if picked.contains(stakes[k].player_id) {
            let j = choose|j: int| 0 <= j < picked.len() && picked[j] == stakes[k].player_id;
            assert(seqs::comes_from(stakes, keep, stake_id(), picked[j]));
            let i = choose|i: int|
                0 <= i < stakes.len() && keep(#[trigger] stakes[i]) && stake_id()(stakes[i])
                    == picked[j];
            assert(ids[i] == ids[k]);
        }
    }
}

/// Nobody is picked where nobody passes.
proof fn lemma_picked_none<A, B>(s: Seq<A>, keep: spec_fn(A) -> bool, f: spec_fn(A) -> B)
    requires
        forall|i: int| 0 <= i < s.len() ==> !keep(#[trigger] s[i]),
    ensures
        seqs::pick(s, keep, f).len() == 0,
    decreases s.len(),
{
    if s.len() > 0 {
        assert forall|i: int| 0 <= i < s.drop_last().len() implies !keep(
            #[trigger] s.drop_last()[i],
        ) by {
            assert(s.drop_last()[i] == s[i]);
        }
        assert(!keep(s[s.len() - 1]));
        lemma_picked_none(s.drop_last(), keep, f);
    }
}

/// Where only the item at `k` passes, it alone is picked.
proof fn lemma_picked_one<A, B>(s: Seq<A>, keep: spec_fn(A) -> bool, f: spec_fn(A) -> B, k: int)
    requires
        0 <= k < s.len(),
        forall|i: int| 0 <= i < s.len() ==> keep(#[trigger] s[i]) == (i == k),
    ensures
        seqs::pick(s, keep, f) == seq![f(s[k])],
    decreases s.len(),
{
    let t = s.drop_last();
    assert forall|i: int| 0 <= i < t.len() implies keep(#[trigger] t[i]) == (i == k) by {
        assert(t[i] == s[i]);
    }
    assert(keep(s[s.len() - 1]) == (s.len() - 1 == k));
    if k == s.len() - 1 {
        lemma_picked_none(t, keep, f);
        assert(seqs::pick(s, keep, f) =~= seq![f(s[k])]);
    } else {
        assert(t[k] == s[k]);
        lemma_picked_one(t, keep, f, k);
    }
}

proof fn lemma_layer_right(stakes: Seq<Stake>, prev: int)
    requires
        0 <= prev < next_level(stakes, prev),
        seqs::distinct(stake_ids(stakes)),
        seqs::sum_of(stakes, stake_amount()) <= u32::MAX,
    ensures
        takes_layer(layer(stakes, prev, next_level(stakes, prev)), prev, stakes),
        layer(stakes, prev, next_level(stakes, prev)).cap.0 == next_level(stakes, prev),
{
    let level = next_level(stakes, prev);
    let p = layer(stakes, prev, level);
    lemma_next_level(stakes, prev);
    lemma_slice_fits(stakes, prev, level);
    seqs::lemma_sum_same(stakes, stakes, slice(prev, level), taken(prev, level));
    lemma_picked_iff(stakes, contests(level));
    lemma_picked_iff(stakes, above(prev));
    let givers = seqs::pick(stakes, above(prev), stake_id());
    assert forall|k: int| 0 <= k < stakes.len() implies p.refund_to.contains(
        (#[trigger] stakes[k]).player_id,
    ) == (stakes[k].amount > prev && (out_of_reach(stakes, level) || (stakes[k].live && alone_above(
        stakes,
        prev,
        k,
    )))) by {
        let pid = stakes[k].player_id;
        assert(givers.contains(pid) == (stakes[k].amount > prev));
        assert(p.eligible.contains(pid) == (stakes[k].live && stakes[k].amount >= level));
        if p.eligible.len() == 0 {
            assert(out_of_reach(stakes, level)) by {
                assert forall|j: int| 0 <= j < stakes.len() && (
                #[trigger] stakes[j]).live implies stakes[j].amount < level by {
                    assert(p.eligible.contains(stakes[j].player_id) == (stakes[j].live
                        && stakes[j].amount >= level));
                }
            }
        } else {
            if out_of_reach(stakes, level) {
                assert forall|j: int| 0 <= j < stakes.len() implies !contests(level)(
                    #[trigger] stakes[j],
                ) by {}
                lemma_picked_none(stakes, contests(level), stake_id());
                assert(false);
            }
            if p.eligible.len() == 1 && givers == p.eligible {
                if p.eligible.contains(pid) {
                    assert forall|j: int| 0 <= j < stakes.len() && (
                    #[trigger] stakes[j]).amount > prev implies j == k by {
                        assert(givers.contains(stakes[j].player_id));
                        assert(givers[0] == stakes[j].player_id && givers[0] == pid);
                        assert(stake_ids(stakes)[j] == stake_ids(stakes)[k]);
                    }
                }
            } else if stakes[k].amount > prev && stakes[k].live && alone_above(stakes, prev, k) {
                assert forall|j: int| 0 <= j < stakes.len() implies above(prev)(
                    #[trigger] stakes[j],
                ) == (j == k) by {}
                assert forall|j: int| 0 <= j < stakes.len() implies contests(level)(
                    #[trigger] stakes[j],
                ) == (j == k) by {}
                lemma_picked_one(stakes, above(prev), stake_id(), k);
                lemma_picked_one(stakes, contests(level), stake_id(), k);
                assert(false);
            }
        }
    }
}

proof fn lemma_layers_piled(stakes: Seq<Stake>, prev: int)
    requires
        0 <= prev,
        seqs::distinct(stake_ids(stakes)),
        seqs::sum_of(stakes, stake_amount()) <= u32::MAX,
    ensures
        piled(layers(stakes, prev), prev, stakes),
        forall|k: int|
            0 <= k < stakes.len() && (#[trigger] stakes[k]).amount > prev ==> layers(
                stakes,
                prev,
            ).len() > 0 && stakes[k].amount <= layers(stakes, prev).last().cap.0,
        layers(stakes, prev).len() > 0 ==> layers(stakes, prev).last().cap.0 > prev,
    decreases u32::MAX - prev,
{
    lemma_next_level(stakes, prev);
    let level = next_level(stakes, prev);
    if level > prev {
        let rest = layers(stakes, level);
        let all = layers(stakes, prev);
        lemma_layers_piled(stakes, level);
        lemma_layer_right(stakes, prev);
        assert(all[0] == layer(stakes, prev, level));
        assert forall|i: int| 0 <= i < all.len() implies #[trigger] lies_right(
            all,
            i,
            prev,
            stakes,
        ) by {
            if i > 0 {
                assert(all[i] == rest[i - 1]);
                if i > 1 {
                    assert(all[i - 1] == rest[i - 2]);
                }
                assert(lies_right(rest, i - 1, level, stakes));
            }
        }
        assert forall|k: int| 0 <= k < stakes.len() && (
        #[trigger] stakes[k]).amount > prev implies stakes[k].amount <= all.last().cap.0 by {
            if stakes[k].amount > level {
                assert(rest.last() == all.last());
            } else if rest.len() > 0 {
                assert(rest.last() == all.last());
            }
        }
        if rest.len() > 0 {
            assert(rest.last() == all.last());
        }
    } else {
        assert forall|k: int| 0 <= k < stakes.len() implies !((#[trigger] stakes[k]).amount
            > prev) by {}
    }
}

/// A pot on top of one for the same players makes one pot with it.
proof fn lemma_joined_right(q: PotModel, p: PotModel, lo: int, stakes: Seq<Stake>)
    requires
        takes_layer(q, lo, stakes),
        takes_layer(p, q.cap.0 as int, stakes),
        q.eligible == p.eligible,
        q.refund_to == p.refund_to,
        q.amount.0 + p.amount.0 <= u32::MAX,
    ensures
        takes_layer(
            PotModel { amount: Chips((q.amount.0 + p.amount.0) as u32), ..p },
            lo,
            stakes,
        ),
{
    let j = PotModel { amount: Chips((q.amount.0 + p.amount.0) as u32), ..p };
    let a = q.cap.0 as int;
    let b = p.cap.0 as int;
    seqs::lemma_sum_split(stakes, taken(lo, b), taken(lo, a), taken(a, b));
    assert forall|k: int| 0 <= k < stakes.len() && (
    #[trigger] stakes[k]).live implies stakes[k].amount <= lo || stakes[k].amount >= b by {
        assert(q.eligible.contains(stakes[k].player_id) == (stakes[k].live && stakes[k].amount
            >= a));
        assert(p.eligible.contains(stakes[k].player_id) == (stakes[k].live && stakes[k].amount
            >= b));
    }
    assert(out_of_reach(stakes, a) == out_of_reach(stakes, b)) by {
        assert forall|k: int| 0 <= k < stakes.len() && (#[trigger] stakes[k]).live implies (
        stakes[k].amount < a) == (stakes[k].amount < b) by {
            assert(q.eligible.contains(stakes[k].player_id) == (stakes[k].live && stakes[k].amount
                >= a));
            assert(p.eligible.contains(stakes[k].player_id) == (stakes[k].live && stakes[k].amount
                >= b));
        }
    }
    assert forall|k: int| 0 <= k < stakes.len() implies j.refund_to.contains(
        (#[trigger] stakes[k]).player_id,
    ) == (stakes[k].amount > lo && (out_of_reach(stakes, b) || (stakes[k].live && alone_above(
        stakes,
        lo,
        k,
    )))) by {}
}

proof fn lemma_merged_piled(s: Seq<PotModel>, stakes: Seq<Stake>)
    requires
        piled(s, 0, stakes),
        pots_total(s) <= u32::MAX,
    ensures
        piled(merged(s), 0, stakes),
        s.len() > 0 ==> merged(s).len() > 0 && merged(s).last().cap == s.last().cap,
        forall|i: int|
            0 < i < merged(s).len() ==> #[trigger] stands_apart(merged(s), i),
    decreases s.len(),
{
    if s.len() > 0 {
        let t = s.drop_last();
        let n = t.len() as int;
        let p = s[n];
        assert forall|i: int| 0 <= i < t.len() implies #[trigger] lies_right(t, i, 0, stakes) by {
            assert(t[i] == s[i]);
            if i > 0 {
                assert(t[i - 1] == s[i - 1]);
            }
            assert(lies_right(s, i, 0, stakes));
        }
        assert(pots_total(s) == pots_total(t) + p.amount.0);
        lemma_merged_piled(t, stakes);
        lemma_merged_total(t);
        let m = merged(t);
        let out = merged(s);
        assert(lies_right(s, n, 0, stakes));
        if n > 0 {
            assert(t.last() == s[n - 1]);
            let last = m.len() - 1;
            let q = m[last];
            let lo = if last == 0 {
                0
            } else {
                m[last - 1].cap.0 as int
            };
            assert(lies_right(m, last, 0, stakes));
            if q.eligible == p.eligible && q.refund_to == p.refund_to {
                seqs::lemma_sum_member(m, last, pot_amount());
                lemma_joined_right(q, p, lo, stakes);
                assert forall|i: int| 0 <= i < out.len() implies #[trigger] lies_right(
                    out,
                    i,
                    0,
                    stakes,
                ) by {
                    if i > 0 {
                        assert(out[i - 1] == m[i - 1]);
                    }
                    if i < last {
                        assert(out[i] == m[i]);
                        assert(lies_right(m, i, 0, stakes));
                    }
                }
                assert forall|i: int| 0 < i < out.len() implies #[trigger] stands_apart(
                    out,
                    i,
                ) by {
                    assert(out[i - 1] == m[i - 1]);
                    assert(stands_apart(m, i));
                }
            } else {
                assert(out =~= m.push(p));
                assert forall|i: int| 0 <= i < out.len() implies #[trigger] lies_right(
                    out,
                    i,
                    0,
                    stakes,
                ) by {
                    if i > 0 {
                        assert(out[i - 1] == m[i - 1]);
                    }
                    if i <= last {
                        assert(out[i] == m[i]);
                        assert(lies_right(m, i, 0, stakes));
                    }
                }
                assert forall|i: int| 0 < i < out.len() implies #[trigger] stands_apart(
                    out,
                    i,
                ) by {
                    assert(out[i - 1] == m[i - 1]);
                    if i <= last {
                        assert(stands_apart(m, i));
                    }
                }
            }
        } else {
            assert(m.len() == 0);
            assert(out =~= seq![p]);
        }
    }
}

/// All the chips of distinct players lie in the pots, layer on layer: every pot
/// takes from each player what the player has put in between its floor and its
/// cap, is contested by the players left who reach its cap, and goes back where
/// nobody contests it or nobody matched it. The pots of the hand are these,
/// where somebody is left in it.
pub proof fn law_pots_are_the_layers_of_the_stakes(stakes: Seq<Stake>)
    requires
        seqs::distinct(stake_ids(stakes)),
        seqs::sum_of(stakes, stake_amount()) <= u32::MAX,
    ensures
        layered_right(all_pots(stakes), stakes),
        (exists|k: int| 0 <= k < stakes.len() && (#[trigger] stakes[k]).live) ==> layered_right(
            pots_of(stakes),
            stakes,
        ),
        (forall|k: int| 0 <= k < stakes.len() ==> !(#[trigger] stakes[k]).live) ==> pots_of(
            stakes,
        ).len() == 0,
{
    let s = layers(stakes, 0);
    lemma_layers_piled(stakes, 0);
    lemma_layers_total(stakes, 0);
    seqs::lemma_sum_same(stakes, stakes, excess(0), stake_amount());
    lemma_merged_piled(s, stakes);
    lemma_pots_settleable(stakes);
    seqs::lemma_count_bounds(stakes, stake_live());
    if exists|k: int| 0 <= k < stakes.len() && (#[trigger] stakes[k]).live {
        let k = choose|k: int| 0 <= k < stakes.len() && (#[trigger] stakes[k]).live;
        seqs::lemma_count_positive(stakes, k, stake_live());
    } else if seqs::count_of(stakes, stake_live()) > 0 {
        seqs::lemma_count_witness(stakes, stake_live());
    }
}

fn next_cap(stakes: &Vec<Stake>, prev: u32) -> (r: u32)
    ensures
        r == next_level(stakes@, prev as int),
{
    let mut level: u32 = prev;
    let mut i: usize = 0;
    while i < stakes.len()
        invariant
            i <= stakes@.len(),
            level == next_level(stakes@.take(i as int), prev as int),
        decreases stakes@.len() - i,
    {
        let a: u32 = stakes[i].amount;
        proof {
            assert(stakes@.take(i + 1).drop_last() =~= stakes@.take(i as int));
        }
        if a > prev && (level <= prev || a < level) {
            level = a;
        }
        i = i + 1;
    }
    assert(stakes@.take(i as int) =~= stakes@);
    level
}

fn slice_total(stakes: &Vec<Stake>, prev: u32, level: u32) -> (r: u32)
    requires
        prev < level,
        seqs::sum_of(stakes@, stake_amount()) <= u32::MAX,
    ensures
        r == seqs::sum_of(stakes@, slice(prev as int, level as int)),
{
    let mut total: u32 = 0;
    let mut i: usize = 0;
    while i < stakes.len()
        invariant
            i <= stakes@.len(),
            prev < level,
            seqs::sum_of(stakes@, stake_amount()) <= u32::MAX,
            total == seqs::sum_of(stakes@.take(i as int), slice(prev as int, level as int)),
        decreases stakes@.len() - i,
    {
        let a: u32 = stakes[i].amount;
        let part: u32 = if a <= prev {
            0
        } else if a >= level {
            level - prev
        } else {
            a - prev
        };
        proof {
            seqs::lemma_sum_take(stakes@, i as int, slice(prev as int, level as int));
            lemma_slice_fits(stakes@, prev as int, level as int);
            seqs::lemma_sum_prefix(stakes@, i + 1, slice(prev as int, level as int));
        }
        total = total + part;
        i = i + 1;
    }
    assert(stakes@.take(i as int) =~= stakes@);
    total
}

fn givers_above(stakes: &Vec<Stake>, prev: u32) -> (r: Vec<PlayerId>)
    ensures
        r@ == seqs::pick(stakes@, above(prev as int), stake_id()),
{
    let mut ids: Vec<PlayerId> = Vec::new();
    let mut i: usize = 0;
    while i < stakes.len()
        invariant
            i <= stakes@.len(),
            ids@ == seqs::pick(stakes@.take(i as int), above(prev as int), stake_id()),
        decreases stakes@.len() - i,
    {
        proof {
            seqs::lemma_pick_take(stakes@, i as int, above(prev as int), stake_id());
        }
        if stakes[i].amount > prev {
            ids.push(stakes[i].player_id);
        }
        i = i + 1;
    }
    assert(stakes@.take(i as int) =~= stakes@);
    ids
}

fn contenders_of(stakes: &Vec<Stake>, level: u32) -> (r: Vec<PlayerId>)
    ensures
        r@ == seqs::pick(stakes@, contests(level as int), stake_id()),
{
    let mut ids: Vec<PlayerId> = Vec::new();
    let mut i: usize = 0;
    while i < stakes.len()
        invariant
            i <= stakes@.len(),
            ids@ == seqs::pick(stakes@.take(i as int), contests(level as int), stake_id()),
        decreases stakes@.len() - i,
    {
        proof {
            seqs::lemma_pick_take(stakes@, i as int, contests(level as int), stake_id());
        }
        if stakes[i].live && stakes[i].amount >= level {
            ids.push(stakes[i].player_id);
        }
        i = i + 1;
    }
    assert(stakes@.take(i as int) =~= stakes@);
    ids
}

/// Whether two lists name the same players in the same order.
pub fn same_ids(a: &Vec<PlayerId>, b: &Vec<PlayerId>) -> (r: bool)
    ensures
        r == (a@ == b@),
{
    if a.len() != b.len() {
        return false;
    }
    let mut i: usize = 0;
    while i < a.len()
        invariant
            i <= a@.len(),
            a@.len() == b@.len(),
            forall|j: int| 0 <= j < i ==> a@[j] == b@[j],
        decreases a@.len() - i,
    {
        if a[i] != b[i] {
            return false;
        }
        i = i + 1;
    }
    assert(a@ =~= b@);
    true
}

fn any_live(stakes: &Vec<Stake>) -> (r: bool)
    ensures
        r == (seqs::count_of(stakes@, stake_live()) > 0),
{
    let mut i: usize = 0;
    while i < stakes.len()
        invariant
            i <= stakes@.len(),
            seqs::count_of(stakes@.take(i as int), stake_live()) == 0,
        decreases stakes@.len() - i,
    {
        if stakes[i].live {
            proof {
                seqs::lemma_count_positive(stakes@, i as int, stake_live());
            }
            return true;
        }
        proof {
            seqs::lemma_count_take(stakes@, i as int, stake_live());
        }
        i = i + 1;
    }
    assert(stakes@.take(i as int) =~= stakes@);
    false
}

fn make_layer(stakes: &Vec<Stake>, prev: u32, level: u32) -> (p: SidePot)
    requires
        prev < level,
        seqs::sum_of(stakes@, stake_amount()) <= u32::MAX,
    ensures
        p@ == layer(stakes@, prev as int, level as int),
        p@.amount.0 == seqs::sum_of(stakes@, slice(prev as int, level as int)),
{
    let amount: u32 = slice_total(stakes, prev, level);
    let eligible = contenders_of(stakes, level);
    let givers = givers_above(stakes, prev);
    let refund_to = if eligible.len() == 0 {
        givers
    } else if eligible.len() == 1 && same_ids(&givers, &eligible) {
        eligible.clone()
    } else {
        Vec::new()
    };
    let p = SidePot { cap: Chips(level), amount: Chips(amount), eligible, refund_to };
    assert(p@ =~= layer(stakes@, prev as int, level as int));
    p
}

/// Puts `p` on top of `pots`, joining it to the last pot where both go to the same players.
fn stack_pot(pots: &mut Vec<SidePot>, p: SidePot)
    requires
        pots_total(pots_view(old(pots)@)) + p@.amount.0 <= u32::MAX,
    ensures
        pots_view(final(pots)@) == stacked(pots_view(old(pots)@), p@),
{
    let n: usize = pots.len();
    let ghost before = pots_view(pots@);
    if n > 0 && same_ids(&pots[n - 1].eligible, &p.eligible) && same_ids(
        &pots[n - 1].refund_to,
        &p.refund_to,
    ) {
        proof {
            assert(before.last() == pots@[n - 1]@);
            seqs::lemma_sum_member(before, n - 1, pot_amount());
        }
        let cap: u32 = if p.cap.0 > pots[n - 1].cap.0 {
            p.cap.0
        } else {
            pots[n - 1].cap.0
        };
        let amount: u32 = pots[n - 1].amount.0 + p.amount.0;
        let joined = SidePot {
            cap: Chips(cap),
            amount: Chips(amount),
            eligible: p.eligible,
            refund_to: p.refund_to,
        };
        pots[n - 1] = joined;
        assert(pots_view(pots@) =~= stacked(before, p@));
    } else {
        assert(n > 0 ==> before.last() == pots@[n - 1]@);
        pots.push(p);
        assert(pots_view(pots@) =~= stacked(before, p@));
    }
}

/// Splits what the players have put in into main and side pots.
pub fn layer_pots(stakes: &Vec<Stake>) -> (pots: Vec<SidePot>)
    requires
        seqs::sum_of(stakes@, stake_amount()) <= u32::MAX,
    ensures
        pots_view(pots@) == pots_of(stakes@),
{
    proof {
        seqs::lemma_count_bounds(stakes@, stake_live());
    }
    if any_live(stakes) {
        layer_all(stakes)
    } else {
        let none: Vec<SidePot> = Vec::new();
        assert(pots_view(none@) =~= pots_of(stakes@));
        none
    }
}

/// Splits what the players have put in into pots, whoever is left in the hand.
pub fn layer_all(stakes: &Vec<Stake>) -> (pots: Vec<SidePot>)
    requires
        seqs::sum_of(stakes@, stake_amount()) <= u32::MAX,
    ensures
        pots_view(pots@) == all_pots(stakes@),
{
    let mut pots: Vec<SidePot> = Vec::new();
    let mut prev: u32 = 0;
    let ghost mut done: Seq<PotModel> = Seq::empty();
    let mut level: u32 = next_cap(stakes, 0);
    proof {
        lemma_layers_total(stakes@, 0);
        seqs::lemma_sum_same(stakes@, stakes@, excess(0), stake_amount());
        assert(done + layers(stakes@, 0) =~= layers(stakes@, 0));
        assert(pots_view(pots@) =~= merged(done));
    }
    while level > prev
        invariant
            seqs::sum_of(stakes@, stake_amount()) <= u32::MAX,
            level == next_level(stakes@, prev as int),
            pots_view(pots@) == merged(done),
            done + layers(stakes@, prev as int) == layers(stakes@, 0),
            pots_total(layers(stakes@, 0)) <= u32::MAX,
        decreases u32::MAX - prev,
    {
        let p = make_layer(stakes, prev, level);
        proof {
            lemma_next_level(stakes@, prev as int);
            let rest = layers(stakes@, level as int);
            let l = p@;
            seqs::lemma_sum_concat(done, layers(stakes@, prev as int), pot_amount());
            seqs::lemma_sum_concat(seq![l], rest, pot_amount());
            seqs::lemma_sum_push(Seq::<PotModel>::empty(), l, pot_amount());
            assert(Seq::<PotModel>::empty().push(l) =~= seq![l]);
            seqs::lemma_sum_nonneg(rest, pot_amount());
            seqs::lemma_sum_nonneg(done, pot_amount());
            lemma_merged_total(done);
            assert(done + layers(stakes@, prev as int) =~= done.push(l) + rest);
            assert(done.push(l).drop_last() =~= done);
            done = done.push(l);
        }
        stack_pot(&mut pots, p);
        prev = level;
        level = next_cap(stakes, prev);
    }
    proof {
        lemma_next_level(stakes@, prev as int);
        assert(done + layers(stakes@, prev as int) =~= done);
    }
    pots
}

} // verus!
