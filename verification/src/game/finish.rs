//! Settling a hand that is over.

use super::model::HandModel;
use super::pots::{
    distribute_pots, distribute_pots_among_survivors, distribute_pots_uncontested,
};
use super::{
    BlindFinishError, GameHand, HandMode, HandResult, HandSeat, HoleSlot, Phase, PotResult,
    ShowdownEntry,
};
use crate::eval::rank_players;
use crate::event::EngineEvent;
use crate::hand::{HoleCards, Street};
use crate::player::PlayerId;
use std::collections::{HashMap, HashSet};
use crate::eval;
use crate::game;
use crate::game::invariants;
use crate::game::model;
use crate::game::outcome;
use crate::game::pots;
use crate::game::showdown_laws;
use crate::seqs;
use crate::game::actions;
use vstd::prelude::*;

verus! {

impl GameHand {
    /// Settles a hand that the engine dealt, reports its outcome and returns it.
    pub fn finish(&mut self) -> (r: HandResult)
        requires
            old(self).wf(),
            old(self)@.phase is Done,
            old(self)@.mode == HandMode::Plaintext,
        ensures
            final(self).wf(),
            r@ == outcome::dealt_result(old(self)@),
            final(self)@ == outcome::concluded(old(self)@, r@),
            showdown_laws::all_hold_cards(old(self)@) ==> showdown_laws::hand_settled(
                old(self)@,
                old(self)@.hand_pots(),
                r@,
                showdown_laws::is_in(),
                false,
            ),
    {
        proof {
            if showdown_laws::all_hold_cards(self@) {
                showdown_laws::law_best_hands_win(self@);
            }
        }
        let mut eligible: Vec<(PlayerId, HoleCards)> = Vec::new();
        let mut i: usize = 0;
        while i < self.seats.len()
            invariant
                i <= self.seats@.len(),
                eligible@ == seqs::pick(
                    self.seats@.take(i as int),
                    outcome::can_show(),
                    outcome::known_hand(),
                ),
            decreases self.seats@.len() - i,
        {
            proof {
                seqs::lemma_pick_take(
                    self.seats@,
                    i as int,
                    outcome::can_show(),
                    outcome::known_hand(),
                );
            }
            if !self.seats[i].folded {
                if let Some(h) = self.seats[i].hole_cards() {
                    eligible.push((self.seats[i].player_id, h));
                }
            }
            i = i + 1;
        }
        proof {
            assert(self.seats@.take(i as int) =~= self.seats@);
            outcome::lemma_hands_of_seats(self@, outcome::can_show());
        }
        let showdown = self.build_plaintext_showdown(eligible.as_slice());
        self.assemble_result(eligible, showdown)
    }

    /// Why a hand dealt elsewhere cannot be settled at all.
    fn refuse_blind(&self) -> (r: Option<BlindFinishError>)
        requires
            self.sound(),
        ensures
            r == outcome::blind_refusal(self@),
    {
        if self.phase != Phase::Done {
            return Some(BlindFinishError::NotDone);
        }
        if self.mode != HandMode::Blind {
            return Some(BlindFinishError::NotBlindMode);
        }
        None
    }

    /// The first player left, where there is one.
    fn first_left(&self) -> (r: Option<PlayerId>)
        ensures
            r == outcome::lone_player(self@),
    {
        let mut i: usize = 0;
        while i < self.seats.len()
            invariant
                i <= self.seats@.len(),
                forall|j: int| 0 <= j < i ==> !model::in_hand()(#[trigger] self.seats@[j]),
            decreases self.seats@.len() - i,
        {
            if !self.seats[i].folded {
                proof {
                    seqs::lemma_first_index_is(self.seats@, i as int, model::in_hand());
                }
                return Some(self.seats[i].player_id);
            }
            i = i + 1;
        }
        proof {
            seqs::lemma_first_index_is(self.seats@, i as int, model::in_hand());
        }
        None
    }

    /// The hands that were shown, and the first seat that has not shown its own.
    fn collect_shown(&self) -> (r: (Vec<(PlayerId, HoleCards)>, Option<BlindFinishError>))
        ensures
            r.0@ == outcome::shown_hands(self@),
            match r.1 {
                Some(e) => e == outcome::missing_reveal(self@) && seqs::count_of(
                    self@.seats,
                    outcome::has_not_shown(),
                )
                    > 0,
                None => seqs::count_of(self@.seats, outcome::has_not_shown()) == 0,
            },
    {
        let mut hands: Vec<(PlayerId, HoleCards)> = Vec::new();
        let mut missing: Option<BlindFinishError> = None;
        let mut i: usize = 0;
        while i < self.seats.len()
            invariant
                i <= self.seats@.len(),
                hands@ == seqs::pick(
                    self.seats@.take(i as int),
                    outcome::has_shown(),
                    outcome::known_hand(),
                ),
                match missing {
                    Some(e) => e == outcome::missing_reveal(self@) && seqs::count_of(
                        self@.seats,
                        outcome::has_not_shown(),
                    ) > 0,
                    None => seqs::count_of(
                        self.seats@.take(i as int),
                        outcome::has_not_shown(),
                    ) == 0 && forall|
                        j: int,
                    |
                        0 <= j < i ==> !outcome::has_not_shown()(#[trigger] self.seats@[j]),
                },
            decreases self.seats@.len() - i,
        {
            let s = self.seats[i];
            proof {
                seqs::lemma_pick_take(
                    self.seats@,
                    i as int,
                    outcome::has_shown(),
                    outcome::known_hand(),
                );
                seqs::lemma_count_take(self.seats@, i as int, outcome::has_not_shown());
            }
            if !s.folded {
                match s.hole {
                    HoleSlot::Revealed(h) => {
                        hands.push((s.player_id, h));
                    },
                    _ => {
                        if missing.is_none() {
                            proof {
                                seqs::lemma_first_index_is(
                                    self.seats@,
                                    i as int,
                                    outcome::has_not_shown(),
                                );
                                seqs::lemma_count_positive(
                                    self.seats@,
                                    i as int,
                                    outcome::has_not_shown(),
                                );
                            }
                            missing = Some(
                                BlindFinishError::MissingReveal {
                                    player_id: s.player_id,
                                    seat: s.seat,
                                },
                            );
                        }
                    },
                }
            }
            i = i + 1;
        }
        assert(self.seats@.take(i as int) =~= self.seats@);
        (hands, missing)
    }

    /// Settles a hand that nobody contests and reports its outcome.
    fn finish_uncontested(&mut self) -> (r: HandResult)
        requires
            old(self).wf(),
            !(old(self)@.phase is NotStarted),
        ensures
            final(self).wf(),
            r@ == outcome::lone_result(old(self)@),
            final(self)@ == outcome::concluded(old(self)@, r@),
    {
        let lone = self.first_left();
        let result = self.assemble_blind_uncontested_result(lone);
        let copy = result.clone();
        self.report(EngineEvent::HandFinished { result: copy });
        result
    }

    /// Settles a hand that was dealt elsewhere. Where two or more players are
    /// left, each of them must have shown the cards. Where one is left, nobody
    /// has to. With nobody left, everybody gets back what they put in. A refused
    /// attempt changes nothing.
    pub fn finish_blind(&mut self) -> (r: Result<HandResult, BlindFinishError>)
        requires
            old(self).wf(),
        ensures
            final(self).wf(),
            match outcome::blind_result(old(self)@) {
                Ok(x) => r is Ok && r->Ok_0@ == x && final(self)@ == outcome::concluded(
                    old(self)@,
                    x,
                ),
                Err(e) => r == Err::<HandResult, BlindFinishError>(e) && final(self)@
                    == old(self)@,
            },
            old(self)@.phase is Done && old(self)@.mode == HandMode::Blind
                && old(self)@.active_count() == 0 ==> r is Ok && outcome::all_refunded(
                old(self)@,
                r->Ok_0@,
            ),
    {
        proof {
            seqs::lemma_count_bounds(self@.seats, model::in_hand());
            invariants::lemma_pot_bounds(self@);
        }
        if let Some(e) = self.refuse_blind() {
            return Err(e);
        }
        if self.count_active() <= 1 {
            proof {
                if self@.active_count() == 0 {
                    outcome::lemma_all_refunded(self@);
                }
            }
            return Ok(self.finish_uncontested());
        }
        let (eligible, missing) = self.collect_shown();
        if let Some(e) = missing {
            return Err(e);
        }
        proof {
            outcome::lemma_hands_of_seats(self@, outcome::has_shown());
        }
        let showdown = self.build_plaintext_showdown(eligible.as_slice());
        Ok(self.assemble_result(eligible, showdown))
    }

    /// Settles a hand that was dealt elsewhere. Players who are left and have
    /// not shown their cards forfeit what was matched, as long as one player has
    /// shown. With nobody left, everybody gets back what they put in. A refused
    /// attempt changes nothing.
    pub fn finish_blind_with_forfeits(&mut self) -> (r: Result<HandResult, BlindFinishError>)
        requires
            old(self).wf(),
        ensures
            final(self).wf(),
            match outcome::forfeit_result(old(self)@) {
                Ok(x) => r is Ok && r->Ok_0@ == x && final(self)@ == outcome::concluded(
                    old(self)@,
                    x,
                ),
                Err(e) => r == Err::<HandResult, BlindFinishError>(e) && final(self)@
                    == old(self)@,
            },
            old(self)@.phase is Done && old(self)@.mode == HandMode::Blind
                && old(self)@.active_count() == 0 ==> r is Ok && outcome::all_refunded(
                old(self)@,
                r->Ok_0@,
            ),
    {
        proof {
            seqs::lemma_count_bounds(self@.seats, model::in_hand());
            invariants::lemma_pot_bounds(self@);
        }
        if let Some(e) = self.refuse_blind() {
            return Err(e);
        }
        if self.count_active() <= 1 {
            proof {
                if self@.active_count() == 0 {
                    outcome::lemma_all_refunded(self@);
                }
            }
            return Ok(self.finish_uncontested());
        }
        let (eligible, missing) = self.collect_shown();
        if eligible.len() == 0 {
            proof {
                lemma_nobody_shown(self@);
            }
            if let Some(e) = missing {
                return Err(e);
            }
        }
        let mut forfeiters: HashSet<u64> = HashSet::new();
        let mut i: usize = 0;
        while i < self.seats.len()
            invariant
                i <= self.seats@.len(),
                forfeiters@ == outcome::silent_players(self.seats@.take(i as int)),
            decreases self.seats@.len() - i,
        {
            let s = self.seats[i];
            assert(self.seats@.take(i + 1).drop_last() =~= self.seats@.take(i as int));
            if !s.folded && !matches!(s.hole, HoleSlot::Revealed(_)) {
                forfeiters.insert(s.player_id.0);
            }
            i = i + 1;
        }
        proof {
            assert(self.seats@.take(i as int) =~= self.seats@);
            outcome::lemma_hands_of_seats(self@, outcome::has_shown());
        }
        let showdown = self.build_plaintext_showdown(eligible.as_slice());
        Ok(self.assemble_result_with_forfeits(eligible, showdown, &forfeiters))
    }

    /// Folds the players `out` who are in the hand.
    fn fold_out(&mut self, out: &[PlayerId])
        ensures
            final(self)@ == (HandModel {
                seats: outcome::folded_out(old(self)@.seats, out@),
                ..old(self)@
            }),
    {
        let ghost before = self@;
        let ghost done = outcome::folded_out(before.seats, out@);
        let n: usize = self.seats.len();
        let mut i: usize = 0;
        while i < n
            invariant
                i <= n,
                n == self.seats@.len(),
                n == before.seats.len(),
                done == outcome::folded_out(before.seats, out@),
                self@ == (HandModel { seats: self.seats@, ..before }),
                forall|k: int| 0 <= k < i ==> #[trigger] self.seats@[k] == done[k],
                forall|k: int| i <= k < n ==> #[trigger] self.seats@[k] == before.seats[k],
            decreases n - i,
        {
            let s = self.seats[i];
            let mut named: bool = false;
            let mut j: usize = 0;
            while j < out.len()
                invariant
                    j <= out@.len(),
                    named == out@.take(j as int).contains(s.player_id),
                decreases out@.len() - j,
            {
                assert(out@.take(j + 1) =~= out@.take(j as int).push(out@[j as int]));
                proof {
                    invariants::lemma_push_contains(
                        out@.take(j as int),
                        out@[j as int],
                        s.player_id,
                    );
                }
                if out[j] == s.player_id {
                    named = true;
                }
                j = j + 1;
            }
            assert(out@.take(j as int) =~= out@);
            if named && !s.folded {
                self.seats[i] = HandSeat { folded: true, all_in: false, ..s };
            }
            assert(self@ =~= (HandModel { seats: self.seats@, ..before }));
            i = i + 1;
        }
        assert(self.seats@ =~= done);
    }

    /// Breaks a hand dealt elsewhere off because `withholders` do not let the
    /// board be shown: they are folded, and the players left share the pots,
    /// but for what nobody matched. Fails where nobody is left.
    pub fn finish_blind_forfeit_board(&mut self, withholders: &[PlayerId]) -> (r: Result<
        HandResult,
        BlindFinishError,
    >)
        requires
            old(self).wf(),
        ensures
            final(self).wf(),
            old(self)@.mode != HandMode::Blind ==> r == Err::<HandResult, BlindFinishError>(
                BlindFinishError::NotBlindMode,
            ) && final(self)@ == old(self)@,
            old(self)@.mode == HandMode::Blind ==> {
                let n = outcome::broken_off(old(self)@, withholders@);
                if n.active_count() == 0 {
                    r == Err::<HandResult, BlindFinishError>(BlindFinishError::NoSurvivor)
                        && final(self)@ == n
                } else {
                    &&& r is Ok
                    &&& r->Ok_0@ == outcome::broken_off_result(n, old(self)@.hand_pots())
                    &&& final(self)@ == outcome::concluded(n, r->Ok_0@)
                }
            },
    {
        let ghost before = self@;
        if self.mode != HandMode::Blind {
            return Err(BlindFinishError::NotBlindMode);
        }
        proof {
            outcome::lemma_broken_off(before, withholders@);
            invariants::lemma_banked(before);
            outcome::lemma_hand_pots(before);
        }
        self.bank_round();
        let pots = self.settlement_side_pots();
        self.fold_out(withholders);
        self.pending_board_street = None;
        self.set_done();
        let ghost n = outcome::broken_off(before, withholders@);
        assert(self@ =~= n);
        let survivors = self.non_folded_player_ids();
        proof {
            seqs::lemma_count_bounds(n.seats, model::in_hand());
        }
        if survivors.len() == 0 {
            return Err(BlindFinishError::NoSurvivor);
        }
        proof {
            outcome::lemma_broken_off_pays(before, withholders@);
        }
        let order = self.button_relative_order();
        let results = distribute_pots_among_survivors(
            pots.as_slice(),
            survivors.as_slice(),
            &order,
        );
        let result = self.finalize_pots_with_show_order(results, Vec::new(), Vec::new());
        assert(result@ =~= outcome::broken_off_result(n, before.hand_pots()));
        let copy = result.clone();
        self.report(EngineEvent::HandFinished { result: copy });
        Ok(result)
    }

    /// The hands shown down, best first.
    pub(crate) fn build_plaintext_showdown(&self, eligible: &[(PlayerId, HoleCards)]) -> (r: Vec<
        ShowdownEntry,
    >)
        requires
            pots::hands_of_players(eligible@, model::seat_ids(self@.seats)),
        ensures
            game::showdown_view(r@) == outcome::showdown_of(eligible@, self@.board),
    {
        let ranked = rank_players(eligible, &self.board);
        let ghost all = outcome::showdown_of(eligible@, self@.board);
        let mut r: Vec<ShowdownEntry> = Vec::new();
        let mut i: usize = 0;
        assert(game::showdown_view(r@) =~= all.take(0));
        while i < ranked.len()
            invariant
                i <= ranked@.len(),
                ranked@ == eval::ranking(eligible@, self@.board),
                all == outcome::showdown_of(eligible@, self@.board),
                game::showdown_view(r@) == all.take(i as int),
            decreases ranked@.len() - i,
        {
            let (pid, rank) = ranked[i];
            let mut k: usize = 0;
            while k < eligible.len() && eligible[k].0 != pid
                invariant
                    k <= eligible@.len(),
                    forall|j: int| 0 <= j < k ==> !pots::is_hand_of(pid)(#[trigger] eligible@[j]),
                decreases eligible@.len() - k,
            {
                k = k + 1;
            }
            proof {
                seqs::lemma_first_index_is(eligible@, k as int, pots::is_hand_of(pid));
                lemma_ranked_has_hand(eligible@, self@.board, i as int);
            }
            let e = ShowdownEntry {
                player_id: pid,
                hole_cards: eligible[k].1,
                rank,
                rank_name: String::from_str(rank.name()),
            };
            let ghost before = r@;
            r.push(e);
            assert(game::showdown_view(r@) =~= game::showdown_view(before).push(e@));
            assert(game::showdown_view(r@) =~= all.take(i + 1));
            i = i + 1;
        }
        assert(all.take(i as int) =~= all);
        r
    }

    pub(crate) fn assemble_result(
        &mut self,
        eligible: Vec<(PlayerId, HoleCards)>,
        showdown: Vec<ShowdownEntry>,
    ) -> (r: HandResult)
        requires
            old(self).wf(),
            !(old(self)@.phase is NotStarted),
            old(self)@.active_count() > 0,
            pots::hands_of_players(eligible@, model::seat_ids(old(self)@.seats)),
            game::showdown_view(showdown@) == outcome::showdown_of(eligible@, old(self)@.board),
        ensures
            final(self).wf(),
            r@ == outcome::showdown_result(old(self)@, eligible@, Set::empty()),
            final(self)@ == outcome::concluded(old(self)@, r@),
    {
        let nobody: HashSet<u64> = HashSet::new();
        self.assemble_result_with_forfeits(eligible, showdown, &nobody)
    }

    /// Settles the pots among the hands shown, and reports the outcome.
    pub(crate) fn assemble_result_with_forfeits(
        &mut self,
        eligible: Vec<(PlayerId, HoleCards)>,
        showdown: Vec<ShowdownEntry>,
        forfeiters: &HashSet<u64>,
    ) -> (r: HandResult)
        requires
            old(self).wf(),
            !(old(self)@.phase is NotStarted),
            old(self)@.active_count() > 0,
            pots::hands_of_players(eligible@, model::seat_ids(old(self)@.seats)),
            game::showdown_view(showdown@) == outcome::showdown_of(eligible@, old(self)@.board),
        ensures
            final(self).wf(),
            r@ == outcome::showdown_result(old(self)@, eligible@, forfeiters@),
            final(self)@ == outcome::concluded(old(self)@, r@),
    {
        proof {
            outcome::lemma_hand_pots(self@);
            outcome::lemma_showdown_pays(self@, eligible@, forfeiters@);
        }
        let order = self.button_relative_order();
        let pots = self.settlement_side_pots();
        let results = distribute_pots(
            pots.as_slice(),
            eligible.as_slice(),
            &self.board,
            &order,
            forfeiters,
        );
        let result = self.finalize_pots(results, showdown);
        let copy = result.clone();
        self.report(EngineEvent::HandFinished { result: copy });
        result
    }

    /// Settles the pots of a hand that nobody contests.
    pub(crate) fn assemble_blind_uncontested_result(&self, lone: Option<PlayerId>) -> (r:
        HandResult)
        requires
            self.wf(),
            !(self@.phase is NotStarted),
            lone == outcome::lone_player(self@),
        ensures
            r@ == outcome::lone_result(self@),
    {
        proof {
            outcome::lemma_hand_pots(self@);
            outcome::lemma_lone_pays(self@);
        }
        let order = self.button_relative_order();
        let pots = self.uncontested_side_pots();
        let results = distribute_pots_uncontested(pots.as_slice(), lone, &order);
        let none: Vec<ShowdownEntry> = Vec::new();
        assert(game::showdown_view(none@) =~= Seq::empty());
        self.finalize_pots(results, none)
    }

    pub(crate) fn finalize_pots(
        &self,
        pot_results: Vec<PotResult>,
        showdown: Vec<ShowdownEntry>,
    ) -> (r: HandResult)
        requires
            self.wf(),
            !(self@.phase is NotStarted),
            outcome::pays_out(
                game::results_view(pot_results@),
                self@.committed(),
                model::seat_ids(self@.seats),
            ),
        ensures
            r@ == outcome::finalized(
                self@,
                game::results_view(pot_results@),
                game::showdown_view(showdown@),
                outcome::show_order(self@),
            ),
    {
        proof {
            invariants::lemma_pot_bounds(self@);
        }
        self.finalize_pots_with_show_order(pot_results, showdown, self.compute_show_order())
    }

    /// What `pid` gets of all pots.
    fn award_to(results: &Vec<PotResult>, pid: PlayerId) -> (r: u32)
        requires
            seqs::sum_of(game::results_view(results@), outcome::result_total()) <= u32::MAX,
        ensures
            r == outcome::awarded(game::results_view(results@), pid),
    {
        let ghost all = game::results_view(results@);
        let mut total: u32 = 0;
        let mut i: usize = 0;
        proof {
            lemma_results_nonneg(all);
        }
        while i < results.len()
            invariant
                i <= results@.len(),
                all == game::results_view(results@),
                seqs::sum_of(all, outcome::result_total()) <= u32::MAX,
                forall|k: int| 0 <= k < all.len() ==> outcome::result_total(
                )(#[trigger] all[k]) >= 0,
                total == outcome::awarded(all.take(i as int), pid),
                total <= seqs::sum_of(all.take(i as int), outcome::result_total()),
            decreases results@.len() - i,
        {
            let ghost w = results@[i as int].winners@;
            let ghost before = total as int;
            proof {
                seqs::lemma_sum_take(all, i as int, outcome::result_total());
                seqs::lemma_sum_prefix(all, i + 1, outcome::result_total());
                seqs::lemma_sum_take(all, i as int, outcome::pot_award(pid));
                assert(all[i as int].winners == w);
            }
            let mut j: usize = 0;
            while j < results[i].winners.len()
                invariant
                    i < results@.len(),
                    j <= results@[i as int].winners@.len(),
                    w == results@[i as int].winners@,
                    total == before + seqs::sum_of(w.take(j as int), outcome::award_of(pid)),
                    before + pots::winners_total(w) <= u32::MAX,
                decreases results@[i as int].winners@.len() - j,
            {
                proof {
                    seqs::lemma_sum_take(w, j as int, outcome::award_of(pid));
                    seqs::lemma_sum_prefix(w, j + 1, outcome::award_of(pid));
                    outcome::lemma_award_bounds(w, pid);
                }
                if results[i].winners[j].player_id == pid {
                    total = total + results[i].winners[j].amount_won.0;
                }
                j = j + 1;
            }
            proof {
                assert(w.take(j as int) =~= w);
                outcome::lemma_award_bounds(w, pid);
            }
            i = i + 1;
        }
        assert(all.take(i as int) =~= all);
        total
    }

    /// Works out what everybody won and has, and puts the outcome together.
    pub(crate) fn finalize_pots_with_show_order(
        &self,
        pot_results: Vec<PotResult>,
        showdown: Vec<ShowdownEntry>,
        show_order: Vec<PlayerId>,
    ) -> (r: HandResult)
        requires
            self.sound(),
            outcome::pays_out(
                game::results_view(pot_results@),
                self@.committed(),
                model::seat_ids(self@.seats),
            ),
        ensures
            r@ == outcome::finalized(
                self@,
                game::results_view(pot_results@),
                game::showdown_view(showdown@),
                show_order@,
            ),
    {
        let ghost results = game::results_view(pot_results@);
        proof {
            invariants::lemma_pot_bounds(self@);
        }
        let mut chips_awarded: HashMap<u64, u32> = HashMap::new();
        let mut final_stacks: HashMap<u64, u32> = HashMap::new();
        let mut folded_hole_cards: HashMap<u64, HoleCards> = HashMap::new();
        let plain: bool = self.mode == HandMode::Plaintext;
        let mut i: usize = 0;
        while i < self.seats.len()
            invariant
                i <= self.seats@.len(),
                self.sound(),
                results == game::results_view(pot_results@),
                outcome::pays_out(results, self@.committed(), model::seat_ids(self@.seats)),
                self@.committed() <= u32::MAX,
                plain == (self.mode == HandMode::Plaintext),
                chips_awarded@ == outcome::seat_map(
                    self.seats@.take(i as int),
                    outcome::winnings(results),
                ),
                final_stacks@ == outcome::seat_map(
                    self.seats@.take(i as int),
                    outcome::final_chips(results),
                ),
                folded_hole_cards@ == if plain {
                    outcome::folded_cards(self.seats@.take(i as int))
                } else {
                    Map::empty()
                },
            decreases self.seats@.len() - i,
        {
            let s = self.seats[i];
            proof {
                assert(self.seats@.take(i + 1).drop_last() =~= self.seats@.take(i as int));
                assert(self.seats@.take(i + 1).last() == s);
                outcome::lemma_final_fits(self@, results, i as int);
            }
            let won: u32 = Self::award_to(&pot_results, s.player_id);
            chips_awarded.insert(s.player_id.0, won);
            final_stacks.insert(s.player_id.0, s.stack.0 + won);
            if plain && s.folded {
                if let Some(h) = s.hole_cards() {
                    folded_hole_cards.insert(s.player_id.0, h);
                }
            }
            i = i + 1;
        }
        assert(self.seats@.take(i as int) =~= self.seats@);
        let actions = self.actions.clone();
        assert(actions@ =~= self.actions@);
        HandResult {
            deck_seed: self.deck_seed,
            board: self.board,
            pots: pot_results,
            chips_awarded,
            final_stacks,
            actions,
            showdown,
            show_order,
            folded_hole_cards,
        }
    }

    /// The order in which the players left show their hands.
    pub(crate) fn compute_show_order(&self) -> (r: Vec<PlayerId>)
        requires
            self.sound(),
            seqs::sum_of(self@.actions, model::record_chips()) <= u32::MAX,
        ensures
            r@ == outcome::show_order(self@),
    {
        let mut order: Vec<PlayerId> = Vec::new();
        if self.count_active() <= 1 {
            assert(order@ =~= outcome::show_order(self@));
            return order;
        }
        let n: usize = self.seats.len();
        proof {
            seqs::lemma_count_bounds(self@.seats, model::in_hand());
            invariants::lemma_wrap(self.dealer_idx as int % n as int, 1, n as int);
        }
        let left: usize = (self.dealer_idx % n + 1) % n;
        assert(left == self@.left_of_button());
        let start: usize = match self.river_raiser() {
            Some(pid) => {
                let k: usize = self.find_seat(pid);
                if k < n {
                    k
                } else {
                    left
                }
            },
            None => self.first_in_hand(left),
        };
        let ghost row = self@.seats_from(start as int);
        assert(start == outcome::show_start(self@));
        let mut idx: usize = start;
        let mut i: usize = 0;
        proof {
            invariants::lemma_wrap(start as int, 0, n as int);
        }
        while i < n
            invariant
                i <= n,
                n == self.seats@.len(),
                n + 2 <= u32::MAX,
                start < n,
                row == self@.seats_from(start as int),
                idx == (start + i) % (n as int),
                order@ == seqs::pick(row.take(i as int), model::in_hand(), model::seat_player()),
            decreases n - i,
        {
            proof {
                invariants::lemma_wrap(start as int, i as int, n as int);
                seqs::lemma_pick_take(row, i as int, model::in_hand(), model::seat_player());
            }
            assert(row[i as int] == self.seats@[idx as int]);
            if !self.seats[idx].folded {
                order.push(self.seats[idx].player_id);
            }
            proof {
                invariants::lemma_wrap(start as int, i + 1, n as int);
            }
            idx = if idx + 1 < n {
                idx + 1
            } else {
                0
            };
            i = i + 1;
        }
        assert(row.take(i as int) =~= row);
        order
    }

    /// The last player to raise on the river.
    fn river_raiser(&self) -> (r: Option<PlayerId>)
        requires
            seqs::sum_of(self@.actions, model::record_chips()) <= u32::MAX,
        ensures
            r == model::last_raiser(self@.facts_of(Street::River)),
    {
        proof {
            actions::lemma_street_sums(self@.actions, Street::River);
        }
        let facts = self.street_action_facts(Street::River);
        let mut k: usize = facts.len();
        assert(facts@.take(k as int) =~= facts@);
        while k > 0
            invariant
                k <= facts@.len(),
                facts@ == self@.facts_of(Street::River),
                model::last_raiser(facts@.take(k as int)) == model::last_raiser(facts@),
            decreases k,
        {
            assert(facts@.take(k as int).drop_last() =~= facts@.take(k - 1));
            if facts[k - 1].increased_bet {
                return Some(facts[k - 1].player_id);
            }
            k = k - 1;
        }
        None
    }

    /// The first seat from `start` on that is in the hand; `start` where none is.
    fn first_in_hand(&self, start: usize) -> (r: usize)
        requires
            start < self@.seats.len(),
            self@.seats.len() + 2 <= u32::MAX,
        ensures
            r == (start + seqs::first_index(self@.seats_from(start as int), model::in_hand()))
                % (self@.seats.len() as int),
            r < self@.seats.len(),
    {
        let n: usize = self.seats.len();
        let ghost row = self@.seats_from(start as int);
        let mut idx: usize = start;
        let mut i: usize = 0;
        proof {
            invariants::lemma_wrap(start as int, 0, n as int);
        }
        while i < n
            invariant
                i <= n,
                n == self.seats@.len(),
                start < n,
                n + 2 <= u32::MAX,
                row == self@.seats_from(start as int),
                idx == (start + i) % (n as int),
                forall|j: int| 0 <= j < i ==> !model::in_hand()(#[trigger] row[j]),
            decreases n - i,
        {
            proof {
                invariants::lemma_wrap(start as int, i as int, n as int);
            }
            assert(row[i as int] == self.seats@[idx as int]);
            if !self.seats[idx].folded {
                proof {
                    seqs::lemma_first_index_is(row, i as int, model::in_hand());
                }
                return idx;
            }
            proof {
                invariants::lemma_wrap(start as int, i + 1, n as int);
            }
            idx = if idx + 1 < n {
                idx + 1
            } else {
                0
            };
            i = i + 1;
        }
        proof {
            invariants::lemma_wrap(start as int, i as int, n as int);
            seqs::lemma_first_index_is(row, i as int, model::in_hand());
        }
        idx
    }

    /// The players by their distance to the left of the button.
    pub(crate) fn button_relative_order(&self) -> (r: HashMap<u64, usize>)
        requires
            self@.seats.len() + 2 <= u32::MAX,
        ensures
            r@ == outcome::button_order(self@),
    {
        let n: usize = self.seats.len();
        let mut order: HashMap<u64, usize> = HashMap::new();
        if n == 0 {
            return order;
        }
        proof {
            invariants::lemma_wrap(self.dealer_idx as int % n as int, 1, n as int);
        }
        let left: usize = (self.dealer_idx % n + 1) % n;
        let mut idx: usize = left;
        let mut i: usize = 0;
        proof {
            invariants::lemma_wrap(left as int, 0, n as int);
        }
        while i < n
            invariant
                i <= n,
                n == self.seats@.len(),
                n + 2 <= u32::MAX,
                left < n,
                left == self@.left_of_button(),
                idx == (left + i) % (n as int),
                order@ == outcome::order_up_to(self@, i as int),
            decreases n - i,
        {
            proof {
                invariants::lemma_wrap(left as int, i as int, n as int);
                invariants::lemma_wrap(left as int, i + 1, n as int);
            }
            order.insert(self.seats[idx].player_id.0, i);
            idx = if idx + 1 < n {
                idx + 1
            } else {
                0
            };
            i = i + 1;
        }
        order
    }
}

/// Every ranked player has a hand.
pub proof fn lemma_ranked_has_hand(
    hands: Seq<(PlayerId, HoleCards)>,
    board: crate::hand::BoardModel,
    i: int,
)
    requires
        0 <= i < eval::ranking(hands, board).len(),
    ensures
        seqs::first_index(hands, pots::is_hand_of(eval::ranking(hands, board)[i].0)) < hands.len(),
{
    let ranked = eval::ranking(hands, board);
    let all = eval::rated(hands, board);
    seqs::lemma_arranged_contains(all, eval::stronger(), ranked[i]);
    assert(ranked.contains(ranked[i]));
    let k = choose|k: int| 0 <= k < all.len() && all[k] == ranked[i];
    seqs::lemma_first_index(hands, pots::is_hand_of(ranked[i].0));
    assert(pots::is_hand_of(ranked[i].0)(hands[k]));
}

/// Where nobody has shown, but somebody is left, somebody has not shown.
pub proof fn lemma_nobody_shown(m: HandModel)
    requires
        m.active_count() > 0,
        outcome::shown_hands(m).len() == 0,
    ensures
        seqs::count_of(m.seats, outcome::has_not_shown()) > 0,
{
    seqs::lemma_pick_from(m.seats, outcome::has_shown(), outcome::known_hand());
    let i = seqs::lemma_count_witness(m.seats, model::in_hand());
    if outcome::has_shown()(m.seats[i]) {
        seqs::lemma_count_positive(m.seats, i, outcome::has_shown());
    }
    seqs::lemma_count_positive(m.seats, i, outcome::has_not_shown());
}

/// No pot pays out less than nothing.
pub proof fn lemma_results_nonneg(results: Seq<crate::game::PotResultModel>)
    ensures
        forall|k: int| 0 <= k < results.len() ==> outcome::result_total(
        )(#[trigger] results[k]) >= 0,
{
    assert forall|k: int| 0 <= k < results.len() implies outcome::result_total(
    )(#[trigger] results[k])
        >= 0 by {
        seqs::lemma_sum_nonneg(results[k].winners, pots::won());
    }
}

} // verus!
