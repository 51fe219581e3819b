//! One betting round.
//!
//! A round knows, for every player who takes part, the stack, what was put in
//! on this street, and whether the player has folded or has acted since the
//! bet was last raised in full. From that follow whose turn it is, what is
//! owed, who may raise, and when the round is over.

use crate::action::{ActionError, BlindKind, PlayerAction};
use crate::player::{Chips, PlayerId};
use crate::seqs;
use crate::sidepot::{layer_pots, Stake};
use crate::sidepot;
use vstd::prelude::*;

pub use crate::sidepot::SidePot;

verus! {

/// A player in a betting round.
#[derive(Debug, Clone, Copy, PartialEq, Eq)]
pub struct PlayerState {
    pub player_id: PlayerId,
    /// The chips the player has left.
    pub stack: Chips,
    /// The chips the player has put in on this street.
    pub contributed: Chips,
    pub folded: bool,
    /// Whether the player has acted since the bet was last raised in full.
    pub acted: bool,
}

impl PlayerState {
    /// Whether the player can still act: neither folded nor out of chips.
    pub open spec fn live(self) -> bool {
        !self.folded && self.stack.0 > 0
    }

    pub fn can_act(&self) -> (r: bool)
        ensures
            r == self.live(),
    {
        !self.folded && self.stack.0 > 0
    }
}

/// A betting round.
#[derive(Debug)]
pub struct BettingRound {
    pub players: Vec<PlayerState>,
    /// The index of the player whose turn it is, while the round is open.
    pub actor: usize,
    /// The bet to match.
    pub bet: Chips,
    /// The size of the last full raise, which is the least size of the next.
    pub last_full_raise: Chips,
}

/// A betting round as a mathematical value.
#[verifier::ext_equal]
pub struct RoundModel {
    pub players: Seq<PlayerState>,
    pub actor: int,
    pub bet: Chips,
    pub last_full_raise: Chips,
}

impl View for BettingRound {
    type V = RoundModel;

    open spec fn view(&self) -> RoundModel {
        RoundModel {
            players: self.players@,
            actor: self.actor as int,
            bet: self.bet,
            last_full_raise: self.last_full_raise,
        }
    }
}

impl Clone for BettingRound {
    fn clone(&self) -> (r: Self)
        ensures
            r@ == self@,
    {
        BettingRound {
            players: self.players.clone(),
            actor: self.actor,
            bet: self.bet,
            last_full_raise: self.last_full_raise,
        }
    }
}

/// The test for a player who has not folded.
pub open spec fn not_folded() -> spec_fn(PlayerState) -> bool {
    |p: PlayerState| !p.folded
}

/// The test for a player who can act.
pub open spec fn can_still_act() -> spec_fn(PlayerState) -> bool {
    |p: PlayerState| p.live()
}

/// The test for the player `pid`.
pub open spec fn is_player(pid: PlayerId) -> spec_fn(PlayerState) -> bool {
    |p: PlayerState| p.player_id == pid
}

pub open spec fn street_chips() -> spec_fn(PlayerState) -> int {
    |p: PlayerState| p.contributed.0 as int
}

pub open spec fn all_chips() -> spec_fn(PlayerState) -> int {
    |p: PlayerState| p.stack.0 + p.contributed.0
}

/// The most that a player who has not folded has put in.
pub open spec fn top_stake(players: Seq<PlayerState>) -> int
    decreases players.len(),
{
    if players.len() == 0 {
        0
    } else {
        let rest = top_stake(players.drop_last());
        let p = players.last();
        if !p.folded && p.contributed.0 > rest {
            p.contributed.0 as int
        } else {
            rest
        }
    }
}

/// The players of a round as stakes.
pub open spec fn round_stakes(players: Seq<PlayerState>) -> Seq<Stake> {
    Seq::new(
        players.len(),
        |i: int|
            Stake {
                player_id: players[i].player_id,
                amount: players[i].contributed.0,
                live: !players[i].folded,
            },
    )
}

/// The players' ids.
pub open spec fn player_ids(players: Seq<PlayerState>) -> Seq<PlayerId> {
    Seq::new(players.len(), |i: int| players[i].player_id)
}

impl RoundModel {
    /// Where `pid` sits in the round; the number of players where the player takes no part.
    pub open spec fn index_of(self, pid: PlayerId) -> int {
        seqs::first_index(self.players, is_player(pid))
    }

    /// How many players have not folded.
    pub open spec fn in_count(self) -> int {
        seqs::count_of(self.players, not_folded())
    }

    /// How many players can still act.
    pub open spec fn live_count(self) -> int {
        seqs::count_of(self.players, can_still_act())
    }

    /// The chips put in on this street.
    pub open spec fn pot(self) -> int {
        seqs::sum_of(self.players, street_chips())
    }

    /// The bet to match. A player alone against players who are all in need
    /// only match what these have in fact put in.
    pub open spec fn to_match(self) -> int {
        if self.live_count() <= 1 {
            top_stake(self.players)
        } else {
            self.bet.0 as int
        }
    }

    /// Whether player `i` must act before the round can end.
    pub open spec fn owes_action(self, i: int) -> bool {
        self.players[i].live() && !(self.players[i].acted && self.players[i].contributed.0
            == self.bet.0)
    }

    /// The round is over: one player is left in the hand; or the only one who
    /// can act has matched all others; or all who can act have acted and
    /// matched the bet.
    pub open spec fn done(self) -> bool {
        ||| self.in_count() <= 1
        ||| self.live_count() == 1 && forall|i: int|
            0 <= i < self.players.len() && (#[trigger] self.players[i]).live()
                ==> self.players[i].contributed.0 >= top_stake(self.players)
        ||| forall|i: int|
            0 <= i < self.players.len() ==> !(#[trigger] self.owes_action(i))
    }

    /// Whose turn it is.
    pub open spec fn current(self) -> Option<PlayerId> {
        if self.done() {
            None
        } else {
            Some(self.players[self.actor].player_id)
        }
    }

    /// What player `i` still owes.
    pub open spec fn owed(self, i: int) -> int {
        if self.to_match() > self.players[i].contributed.0 {
            self.to_match() - self.players[i].contributed.0
        } else {
            0
        }
    }

    /// Whether player `i` may raise: the player has not acted since the last
    /// full raise, somebody else can respond, and there are chips beyond the call.
    pub open spec fn may_raise(self, i: int) -> bool {
        !self.players[i].acted && self.live_count() >= 2 && self.players[i].stack.0 > self.owed(i)
    }

    /// The least bet that a raise may make.
    pub open spec fn min_raise_total(self) -> int {
        if self.to_match() + self.last_full_raise.0 > u32::MAX {
            u32::MAX as int
        } else {
            self.to_match() + self.last_full_raise.0
        }
    }

    /// Why `pid` may not take `action`; `None` where the player may.
    pub open spec fn refusal(self, pid: PlayerId, action: PlayerAction) -> Option<ActionError> {
        let i = self.index_of(pid);
        let p = self.players[i];
        let whole = p.stack.0 + p.contributed.0;
        if i >= self.players.len() {
            Some(ActionError::NotInHand)
        } else if p.folded {
            Some(ActionError::AlreadyFolded)
        } else if self.current() != Some(pid) {
            Some(ActionError::NotYourTurn)
        } else {
            match action {
                PlayerAction::Fold | PlayerAction::Call => None,
                PlayerAction::Check => if self.owed(i) > 0 {
                    Some(ActionError::InvalidAction)
                } else {
                    None
                },
                PlayerAction::Raise { amount } => if amount.0 > whole {
                    Some(ActionError::InvalidAction)
                } else if amount.0 == whole {
                    if whole > self.to_match() && !self.may_raise(i) {
                        Some(ActionError::InvalidAction)
                    } else {
                        None
                    }
                } else if !self.may_raise(i) {
                    Some(ActionError::InvalidAction)
                } else if amount.0 <= self.to_match() || amount.0 < self.min_raise_total() {
                    Some(ActionError::BelowMinRaise)
                } else {
                    None
                },
                PlayerAction::AllIn => if whole > self.to_match() && !self.may_raise(i) {
                    Some(ActionError::InvalidAction)
                } else {
                    None
                },
                PlayerAction::Blind { kind, .. } => if kind == BlindKind::Straddle {
                    Some(ActionError::StraddleNotSupported)
                } else {
                    Some(ActionError::InvalidAction)
                },
            }
        }
    }

    /// The chips that `action` moves from the stack of player `i` to the pot.
    pub open spec fn chips_for(self, i: int, action: PlayerAction) -> int {
        match action {
            PlayerAction::Call => if self.owed(i) < self.players[i].stack.0 {
                self.owed(i)
            } else {
                self.players[i].stack.0 as int
            },
            PlayerAction::Raise { amount } => amount.0 - self.players[i].contributed.0,
            PlayerAction::AllIn => self.players[i].stack.0 as int,
            _ => 0,
        }
    }

    /// Player `i` after putting in `chips`, or folding.
    pub open spec fn player_after(self, i: int, fold: bool, chips: int) -> PlayerState {
        PlayerState {
            stack: Chips((self.players[i].stack.0 - chips) as u32),
            contributed: Chips((self.players[i].contributed.0 + chips) as u32),
            folded: fold,
            acted: true,
            ..self.players[i]
        }
    }

    /// Whether putting in `chips` makes player `i` raise the bet by at least
    /// the size of the last full raise.
    pub open spec fn is_full_raise(self, i: int, chips: int) -> bool {
        let total = self.players[i].contributed.0 + chips;
        total > self.bet.0 && total - self.bet.0 >= self.last_full_raise.0
    }

    /// The round after player `i` has put in `chips`, or folded, before the
    /// turn passes on. A full raise gives every other player a turn again.
    pub open spec fn moved(self, i: int, fold: bool, chips: int) -> RoundModel {
        let total = self.players[i].contributed.0 + chips;
        let full = self.is_full_raise(i, chips);
        RoundModel {
            players: Seq::new(
                self.players.len(),
                |j: int|
                    if j == i {
                        self.player_after(i, fold, chips)
                    } else if full {
                        PlayerState { acted: false, ..self.players[j] }
                    } else {
                        self.players[j]
                    },
            ),
            bet: if total > self.bet.0 {
                Chips(total as u32)
            } else {
                self.bet
            },
            last_full_raise: if full {
                Chips((total - self.bet.0) as u32)
            } else {
                self.last_full_raise
            },
            ..self
        }
    }

    /// The round with the turn given to the first player from `from` on, going
    /// round the table, who must act.
    pub open spec fn turned(self, from: int, left: nat) -> RoundModel
        decreases left,
    {
        if left == 0 {
            self
        } else if self.owes_action(from) {
            RoundModel { actor: from, ..self }
        } else {
            self.turned(self.seat_after(from), (left - 1) as nat)
        }
    }

    /// The next place round the table.
    pub open spec fn seat_after(self, i: int) -> int {
        if i + 1 < self.players.len() {
            i + 1
        } else {
            0
        }
    }

    /// The round after player `i` has taken `action`.
    pub open spec fn after(self, i: int, action: PlayerAction) -> RoundModel {
        self.moved(i, action is Fold, self.chips_for(i, action)).turned(
            self.seat_after(i),
            self.players.len(),
        )
    }

    /// What holds of every round.
    pub open spec fn wf(self) -> bool {
        &&& 0 < self.players.len() < u32::MAX
        &&& seqs::distinct(player_ids(self.players))
        &&& seqs::sum_of(self.players, all_chips()) <= u32::MAX
        &&& self.in_count() >= 1
        &&& forall|i: int|
            0 <= i < self.players.len() ==> (#[trigger] self.players[i]).contributed.0
                <= self.bet.0
        &&& !self.done() ==> 0 <= self.actor < self.players.len() && self.owes_action(self.actor)
    }
}

/// The seats of a round that opens with `players`.
pub open spec fn seated(players: Seq<(PlayerId, Chips)>) -> Seq<PlayerState> {
    Seq::new(
        players.len(),
        |i: int|
            PlayerState {
                player_id: players[i].0,
                stack: players[i].1,
                contributed: Chips(0),
                folded: false,
                acted: false,
            },
    )
}

/// `players` after `pid` has posted `amount`, or as much of it as the player has.
pub open spec fn posted(
    players: Seq<PlayerState>,
    pid: PlayerId,
    amount: Chips,
) -> Seq<PlayerState> {
    let i = seqs::first_index(players, is_player(pid));
    if i >= players.len() {
        players
    } else {
        let p = players[i];
        let chips = if amount.0 < p.stack.0 {
            amount.0
        } else {
            p.stack.0
        };
        players.update(
            i,
            PlayerState {
                stack: Chips((p.stack.0 - chips) as u32),
                contributed: Chips((p.contributed.0 + chips) as u32),
                ..p
            },
        )
    }
}

/// `players` after all of `blinds` have been posted in order.
pub open spec fn all_posted(
    players: Seq<PlayerState>,
    blinds: Seq<(PlayerId, Chips)>,
) -> Seq<PlayerState>
    decreases blinds.len(),
{
    if blinds.len() == 0 {
        players
    } else {
        posted(all_posted(players, blinds.drop_last()), blinds.last().0, blinds.last().1)
    }
}

/// The round that opens with `players`, the bet at `bet` and the least raise at
/// `raise`, the turn going to the first from `first_actor` on who must act.
pub open spec fn opened(
    players: Seq<PlayerState>,
    first_actor: int,
    bet: Chips,
    raise: Chips,
) -> RoundModel {
    RoundModel { players, actor: first_actor, bet, last_full_raise: raise }.turned(
        first_actor,
        players.len(),
    )
}

/// The first round of a hand: the bet opens at `bring_in`, however little a
/// blind could post.
pub open spec fn opened_preflop(
    players: Seq<(PlayerId, Chips)>,
    first_actor: int,
    blinds: Seq<(PlayerId, Chips)>,
    bring_in: Chips,
) -> RoundModel {
    let after = all_posted(seated(players), blinds);
    let top = top_stake(after);
    let bet = if bring_in.0 >= top {
        bring_in
    } else {
        Chips(top as u32)
    };
    opened(after, first_actor, bet, bet)
}

/// The chips of players about to be seated.
pub open spec fn seat_chips() -> spec_fn((PlayerId, Chips)) -> int {
    |p: (PlayerId, Chips)| p.1.0 as int
}

/// Players can be seated in a round: they are distinct and their chips can be counted.
pub open spec fn can_seat(players: Seq<(PlayerId, Chips)>) -> bool {
    &&& 0 < players.len() < u32::MAX
    &&& seqs::distinct(Seq::new(players.len(), |i: int| players[i].0))
    &&& seqs::sum_of(players, seat_chips()) <= u32::MAX
}

pub proof fn lemma_top_stake(players: Seq<PlayerState>)
    ensures
        0 <= top_stake(players) <= u32::MAX,
        forall|i: int|
            0 <= i < players.len() && !(#[trigger] players[i]).folded ==> players[i].contributed.0
                <= top_stake(players),
        top_stake(players) > 0 ==> exists|i: int|
            0 <= i < players.len() && !(#[trigger] players[i]).folded && players[i].contributed.0
                == top_stake(players),
    decreases players.len(),
{
    if players.len() > 0 {
        let t = players.drop_last();
        lemma_top_stake(t);
        assert forall|i: int|
            0 <= i < players.len(
            ) && !(#[trigger] players[i]).folded implies players[i].contributed.0
            <= top_stake(players) by {
            if i < t.len() {
                assert(t[i] == players[i]);
            }
        }
        if top_stake(players) > 0 {
            if top_stake(players) == top_stake(t) {
                let i = choose|i: int|
                    0 <= i < t.len() && !(#[trigger] t[i]).folded && t[i].contributed.0
                        == top_stake(t);
                assert(players[i] == t[i]);
            } else {
                let n = players.len() - 1;
                assert(players[n].contributed.0 == top_stake(players));
            }
        }
    }
}

/// Turning finds a player who must act where there is one, and changes nothing else.
pub proof fn lemma_turned(r: RoundModel, from: int, left: nat)
    requires
        0 <= from < r.players.len(),
        left <= r.players.len(),
    ensures
        r.turned(from, left).players == r.players,
        r.turned(from, left).bet == r.bet,
        r.turned(from, left).last_full_raise == r.last_full_raise,
        r.turned(from, left).actor == r.actor || (0 <= r.turned(from, left).actor
            < r.players.len() && r.owes_action(r.turned(from, left).actor)),
        (exists|k: int|
            0 <= k < r.players.len() && #[trigger] r.owes_action(k) && (if k >= from {
                k - from < left
            } else {
                k + r.players.len() - from < left
            })) ==> 0 <= r.turned(from, left).actor < r.players.len() && r.owes_action(
            r.turned(from, left).actor,
        ),
    decreases left,
{
    if left > 0 && !r.owes_action(from) {
        lemma_turned(r, r.seat_after(from), (left - 1) as nat);
        let next = r.seat_after(from);
        assert forall|k: int|
            0 <= k < r.players.len() && #[trigger] r.owes_action(k) && (if k >= from {
                k - from < left
            } else {
                k + r.players.len() - from < left
            }) implies (if k >= next {
            k - next < left - 1
        } else {
            k + r.players.len() - next < left - 1
        }) by {}
    }
}

/// A round whose players are in order, turned once round the table, is well formed.
pub proof fn lemma_turned_wf(r: RoundModel, from: int)
    requires
        0 <= from < r.players.len() < u32::MAX,
        seqs::distinct(player_ids(r.players)),
        seqs::sum_of(r.players, all_chips()) <= u32::MAX,
        r.in_count() >= 1,
        forall|i: int|
            0 <= i < r.players.len() ==> (#[trigger] r.players[i]).contributed.0 <= r.bet.0,
    ensures
        r.turned(from, r.players.len()).wf(),
        r.turned(from, r.players.len()).players == r.players,
        r.turned(from, r.players.len()).bet == r.bet,
        r.turned(from, r.players.len()).last_full_raise == r.last_full_raise,
        r.turned(from, r.players.len()).done() == r.done(),
{
    lemma_turned(r, from, r.players.len());
    let t = r.turned(from, r.players.len());
    let t_settled = forall|i: int| 0 <= i < t.players.len() ==> !(#[trigger] t.owes_action(i));
    let r_settled = forall|i: int| 0 <= i < r.players.len() ==> !(#[trigger] r.owes_action(i));
    assert(t_settled == r_settled) by {
        if t_settled {
            assert forall|i: int| 0 <= i < r.players.len() implies !(#[trigger] r.owes_action(
                i,
            )) by {
                assert(!t.owes_action(i));
            }
        }
        if r_settled {
            assert forall|i: int| 0 <= i < t.players.len() implies !(#[trigger] t.owes_action(
                i,
            )) by {
                assert(!r.owes_action(i));
            }
        }
    }
    assert(t.done() == r.done());
    if !r.done() {
        let k = choose|k: int| 0 <= k < r.players.len() && #[trigger] r.owes_action(k);
        assert(r.owes_action(k));
        assert(t.owes_action(t.actor));
    }
}

/// A move by the player whose turn it is keeps the players and the chips of
/// each, and leaves the round in order.
pub proof fn lemma_moved(r: RoundModel, fold: bool, chips: int)
    requires
        r.wf(),
        !r.done(),
        0 <= chips <= r.players[r.actor].stack.0,
        fold ==> chips == 0,
    ensures
        ({
            let m = r.moved(r.actor, fold, chips);
            &&& m.players.len() == r.players.len()
            &&& seqs::distinct(player_ids(m.players))
            &&& seqs::sum_of(m.players, all_chips()) == seqs::sum_of(r.players, all_chips())
            &&& m.pot() == r.pot() + chips
            &&& m.in_count() >= 1
            &&& forall|i: int|
                0 <= i < m.players.len() ==> (#[trigger] m.players[i]).contributed.0 <= m.bet.0
        }),
{
    let i = r.actor;
    let m = r.moved(i, fold, chips);
    seqs::lemma_sum_member(r.players, i, all_chips());
    let p = r.player_after(i, fold, chips);
    let only = r.players.update(i, p);
    assert(player_ids(m.players) =~= player_ids(r.players));
    seqs::lemma_sum_update(r.players, i, p, all_chips());
    seqs::lemma_sum_update(r.players, i, p, street_chips());
    seqs::lemma_sum_same(m.players, only, all_chips(), all_chips());
    seqs::lemma_sum_same(m.players, only, street_chips(), street_chips());
    seqs::lemma_count_same(m.players, only, not_folded(), not_folded());
    seqs::lemma_count_update(r.players, i, p, not_folded());
}

/// The chips that an action of the player whose turn it is may move.
pub proof fn lemma_chips_for(r: RoundModel, pid: PlayerId, action: PlayerAction)
    requires
        r.wf(),
        r.refusal(pid, action) is None,
    ensures
        !r.done(),
        r.index_of(pid) == r.actor,
        0 <= r.actor < r.players.len(),
        0 <= r.chips_for(r.actor, action) <= r.players[r.actor].stack.0,
{
    seqs::lemma_first_index(r.players, is_player(pid));
    lemma_top_stake(r.players);
    let i = r.index_of(pid);
    if i != r.actor {
        let ids = player_ids(r.players);
        assert(ids[i] == ids[r.actor]);
        assert(false);
    }
    if let PlayerAction::Raise { amount } = action {
        assert(amount.0 >= r.players[i].contributed.0);
    }
}

/// An allowed action leaves the round well formed, moves the chips it says from
/// the player's stack to the pot, and touches nobody else's chips.
pub proof fn law_action_moves_own_chips(r: RoundModel, pid: PlayerId, action: PlayerAction)
    requires
        r.wf(),
        r.refusal(pid, action) is None,
    ensures
        ({
            let i = r.index_of(pid);
            let chips = r.chips_for(i, action);
            let n = r.after(i, action);
            &&& 0 <= i < r.players.len()
            &&& 0 <= chips <= r.players[i].stack.0
            &&& n.wf()
            &&& n.pot() == r.pot() + chips
            &&& n.players.len() == r.players.len()
            &&& n.players[i].stack.0 == r.players[i].stack.0 - chips
            &&& n.players[i].contributed.0 == r.players[i].contributed.0 + chips
            &&& n.players[i].folded == (action is Fold)
            &&& forall|j: int|
                0 <= j < r.players.len() ==> (#[trigger] n.players[j]).player_id
                    == r.players[j].player_id
            &&& forall|j: int|
                0 <= j < r.players.len() && j != i ==> (#[trigger] n.players[j]).stack
                    == r.players[j].stack && n.players[j].contributed == r.players[j].contributed
                    && n.players[j].folded == r.players[j].folded
        }),
{
    lemma_chips_for(r, pid, action);
    let i = r.actor;
    let chips = r.chips_for(i, action);
    lemma_moved(r, action is Fold, chips);
    seqs::lemma_sum_member(r.players, i, all_chips());
    lemma_turned_wf(r.moved(i, action is Fold, chips), r.seat_after(i));
}

/// A full raise gives every other player who can act a turn again; a short
/// all-in does not let those raise who have acted already.
pub proof fn law_only_full_raises_reopen(r: RoundModel, i: int, chips: int, j: int)
    requires
        r.wf(),
        !r.done(),
        i == r.actor,
        0 <= chips <= r.players[i].stack.0,
        0 <= j < r.players.len(),
        j != i,
    ensures
        r.is_full_raise(i, chips) ==> !r.moved(i, false, chips).players[j].acted,
        !r.is_full_raise(i, chips) && r.players[j].acted ==> !r.moved(i, false, chips).may_raise(
            j,
        ),
{
}

/// A player who is alone against players who are all in may call or fold, but
/// not put in more than a call.
pub proof fn law_lone_stack_cannot_raise(r: RoundModel, pid: PlayerId, amount: Chips)
    requires
        r.wf(),
        r.live_count() == 1,
        r.current() == Some(pid),
    ensures
        r.refusal(pid, PlayerAction::Call) is None,
        r.refusal(pid, PlayerAction::Fold) is None,
        ({
            let p = r.players[r.actor];
            &&& p.stack.0 + p.contributed.0 > r.to_match() ==> r.refusal(pid, PlayerAction::AllIn)
                == Some(ActionError::InvalidAction)
            &&& amount.0 > r.to_match() ==> r.refusal(pid, PlayerAction::Raise { amount }) == Some(
                ActionError::InvalidAction,
            )
        }),
{
    let i = r.index_of(pid);
    seqs::lemma_first_index(r.players, is_player(pid));
    assert(is_player(pid)(r.players[r.actor]));
    if i != r.actor {
        let ids = player_ids(r.players);
        assert(i <= r.actor);
        assert(ids[i] == ids[r.actor]);
        assert(false);
    }
}

// ---- the rules of betting ----
/// Player `k` has not folded, has chips, and has not both acted since the last
/// full raise and matched the bet.
pub open spec fn waits(r: RoundModel, k: int) -> bool {
    let p = r.players[k];
    !p.folded && p.stack.0 > 0 && (!p.acted || p.contributed.0 != r.bet.0)
}

/// The place `s` places after place `i`, going round the table.
pub open spec fn round_table(r: RoundModel, i: int, s: int) -> int {
    (i + s) % (r.players.len() as int)
}

/// The turn is with the first player who waits, from the place `s` places after `i` on.
pub open spec fn turn_is_first_from(r: RoundModel, i: int, s: int) -> bool {
    &&& 0 <= s
    &&& r.actor == round_table(r, i, s)
    &&& waits(r, r.actor)
    &&& forall|t: int| 0 <= t < s ==> !waits(r, #[trigger] round_table(r, i, t))
}

proof fn lemma_turn_found(r: RoundModel, from: int, left: nat) -> (s: int)
    requires
        0 <= from < r.players.len(),
        left <= r.players.len(),
        exists|k: int| 0 <= k < left && r.owes_action(#[trigger] round_table(r, from, k)),
    ensures
        0 <= s < left,
        turn_is_first_from(r.turned(from, left), from, s),
    decreases left,
{
    let k = choose|k: int| 0 <= k < left && r.owes_action(#[trigger] round_table(r, from, k));
    lemma_round_table(r, from, 0);
    let t = r.turned(from, left);
    lemma_turned(r, from, left);
    if r.owes_action(from) {
        assert(t.actor == from);
        assert(waits(t, from));
        assert(round_table(t, from, 0) == from);
        0
    } else {
        let next = r.seat_after(from);
        assert(k > 0);
        lemma_round_table(r, from, k);
        lemma_round_table(r, next, k - 1);
        assert(round_table(r, next, k - 1) == round_table(r, from, k));
        let s = lemma_turn_found(r, next, (left - 1) as nat);
        lemma_round_table(r, from, s + 1);
        lemma_round_table(r, next, s);
        assert(t == r.turned(next, (left - 1) as nat));
        assert(round_table(t, from, s + 1) == round_table(t, next, s));
        assert forall|x: int| 0 <= x < s + 1 implies !waits(
            t,
            #[trigger] round_table(t, from, x),
        ) by {
            if x > 0 {
                lemma_round_table(r, from, x);
                lemma_round_table(r, next, x - 1);
                assert(round_table(t, from, x) == round_table(t, next, x - 1));
                assert(!waits(t, round_table(t, next, x - 1)));
            } else {
                assert(round_table(t, from, 0) == from);
            }
        }
        s + 1
    }
}

proof fn lemma_round_table(r: RoundModel, i: int, s: int)
    requires
        0 <= i < r.players.len(),
        0 <= s <= r.players.len(),
    ensures
        round_table(r, i, s) == if i + s < r.players.len() {
            i + s
        } else {
            i + s - r.players.len()
        },
{
    let n = r.players.len() as int;
    if i + s < n {
        vstd::arithmetic::div_mod::lemma_small_mod((i + s) as nat, n as nat);
    } else {
        vstd::arithmetic::div_mod::lemma_small_mod((i + s - n) as nat, n as nat);
        vstd::arithmetic::div_mod::lemma_mod_add_multiples_vanish(i + s - n, n);
    }
}

/// Where somebody must act, the turn is given to the first one from `from` on.
pub proof fn lemma_turn_given(r: RoundModel, from: int) -> (s: int)
    requires
        0 <= from < r.players.len(),
        !r.done(),
    ensures
        0 <= s < r.players.len(),
        turn_is_first_from(r.turned(from, r.players.len()), from, s),
{
    let n = r.players.len() as int;
    let k = choose|k: int| 0 <= k < n && #[trigger] r.owes_action(k);
    assert(0 <= k < n && r.owes_action(k));
    let s = if k >= from {
        k - from
    } else {
        k + n - from
    };
    lemma_round_table(r, from, s);
    assert(r.owes_action(round_table(r, from, s)));
    lemma_turn_found(r, from, r.players.len())
}

/// After an action that leaves the round open, the turn is with the first player
/// round the table after the one who acted who has to act.
pub proof fn law_turn_goes_round_the_table(
    r: RoundModel,
    pid: PlayerId,
    action: PlayerAction,
) -> (s: int)
    requires
        r.wf(),
        r.refusal(pid, action) is None,
        !r.after(r.actor, action).done(),
    ensures
        r.current() == Some(pid),
        r.index_of(pid) == r.actor,
        r.players[r.actor].player_id == pid,
        0 <= s < r.players.len(),
        turn_is_first_from(
            r.after(r.actor, action),
            round_table(r, r.actor, 1),
            s,
        ),
        r.after(r.actor, action).current() == Some(
            r.players[r.after(r.actor, action).actor].player_id,
        ),
{
    lemma_chips_for(r, pid, action);
    law_action_moves_own_chips(r, pid, action);
    let i = r.actor;
    let m = r.moved(i, action is Fold, r.chips_for(i, action));
    lemma_moved(r, action is Fold, r.chips_for(i, action));
    lemma_turned_wf(m, r.seat_after(i));
    lemma_round_table(r, i, 1);
    lemma_turn_given(m, r.seat_after(i))
}

/// The round is over exactly where one player is left in the hand; or where only
/// one player can act, and nobody in the hand has put in more than that player;
/// or where every player who can act has acted since the last full raise and
/// matched the bet.
pub proof fn law_when_a_round_is_over(r: RoundModel)
    ensures
        r.done() == ({
            ||| forall|i: int, j: int|
                #![trigger r.players[i], r.players[j]]
                0 <= i < j < r.players.len() ==> r.players[i].folded || r.players[j].folded
            ||| exists|k: int|
                0 <= k < r.players.len() && !(#[trigger] r.players[k]).folded
                    && r.players[k].stack.0 > 0 && alone_and_level(r, k)
            ||| forall|k: int| 0 <= k < r.players.len() ==> !waits(r, k)
        }),
{
    seqs::lemma_count_bounds(r.players, not_folded());
    seqs::lemma_count_bounds(r.players, can_still_act());
    lemma_top_stake(r.players);
    let few = forall|i: int, j: int|
        #![trigger r.players[i], r.players[j]]
        0 <= i < j < r.players.len() ==> r.players[i].folded || r.players[j].folded;
    assert(few == (r.in_count() <= 1)) by {
        if r.in_count() >= 2 {
            let (i, j) = seqs::lemma_count_pair(r.players, not_folded());
            assert(!r.players[i].folded && !r.players[j].folded);
        }
        if !few {
            let (i, j) = choose|i: int, j: int|
                #![trigger r.players[i], r.players[j]]
                0 <= i < j < r.players.len() && !(r.players[i].folded || r.players[j].folded);
            seqs::lemma_count_two(r.players, i, j, not_folded());
        }
    }
    let level = exists|k: int|
        0 <= k < r.players.len() && !(#[trigger] r.players[k]).folded && r.players[k].stack.0 > 0
            && alone_and_level(r, k);
    let lone = r.live_count() == 1 && forall|i: int|
        0 <= i < r.players.len() && (#[trigger] r.players[i]).live()
            ==> r.players[i].contributed.0 >= top_stake(r.players);
    assert(level == lone) by {
        if level {
            let k = choose|k: int|
                0 <= k < r.players.len() && !(#[trigger] r.players[k]).folded
                    && r.players[k].stack.0 > 0 && alone_and_level(r, k);
            seqs::lemma_count_positive(r.players, k, can_still_act());
            if r.live_count() >= 2 {
                let (i, j) = seqs::lemma_count_pair(r.players, can_still_act());
                assert(r.players[i].live() && r.players[j].live());
            }
            assert forall|i: int| 0 <= i < r.players.len() && (
            #[trigger] r.players[i]).live() implies r.players[i].contributed.0 >= top_stake(
                r.players,
            ) by {
                assert(i == k);
                if top_stake(r.players) > 0 {
                    let t = choose|t: int|
                        0 <= t < r.players.len() && !(#[trigger] r.players[t]).folded
                            && r.players[t].contributed.0 == top_stake(r.players);
                }
            }
        }
        if lone {
            let k = seqs::lemma_count_witness(r.players, can_still_act());
            assert(r.players[k].live());
            assert forall|j: int| 0 <= j < r.players.len() && !(
            #[trigger] r.players[j]).folded implies r.players[j].contributed.0
                <= r.players[k].contributed.0 && (r.players[j].stack.0 > 0 ==> j == k) by {
                if r.players[j].stack.0 > 0 && j != k {
                    if j < k {
                        seqs::lemma_count_two(r.players, j, k, can_still_act());
                    } else {
                        seqs::lemma_count_two(r.players, k, j, can_still_act());
                    }
                }
            }
            assert(alone_and_level(r, k));
        }
    }
    assert((forall|k: int| 0 <= k < r.players.len() ==> !waits(r, k)) == (forall|i: int|
        0 <= i < r.players.len() ==> !(#[trigger] r.owes_action(i)))) by {
        assert forall|k: int| #[trigger] r.owes_action(k) == waits(r, k) by {}
        if forall|k: int| 0 <= k < r.players.len() ==> !waits(r, k) {
            assert forall|i: int| 0 <= i < r.players.len() implies !(#[trigger] r.owes_action(
                i,
            )) by {
                assert(!waits(r, i));
            }
        }
        if forall|i: int| 0 <= i < r.players.len() ==> !(#[trigger] r.owes_action(i)) {
            assert forall|k: int| 0 <= k < r.players.len() implies !waits(r, k) by {
                assert(!r.owes_action(k));
            }
        }
    }
}

/// Nobody in the hand but player `k` has chips, and nobody in the hand has put
/// in more.
pub open spec fn alone_and_level(r: RoundModel, k: int) -> bool {
    forall|j: int|
        0 <= j < r.players.len() && !(#[trigger] r.players[j]).folded
            ==> r.players[j].contributed.0 <= r.players[k].contributed.0 && (r.players[j].stack.0
            > 0 ==> j == k)
}

/// Somebody in the hand other than player `k` has chips.
pub open spec fn has_rival(r: RoundModel, k: int) -> bool {
    exists|j: int|
        0 <= j < r.players.len() && j != k && !(#[trigger] r.players[j]).folded
            && r.players[j].stack.0 > 0
}

/// `c` is what player `k` has to match: the bet, or, where nobody else in the
/// hand has chips, the most that somebody in the hand has put in.
pub open spec fn is_price(r: RoundModel, k: int, c: int) -> bool {
    if has_rival(r, k) {
        c == r.bet.0
    } else {
        &&& forall|j: int|
            0 <= j < r.players.len() && !(#[trigger] r.players[j]).folded
                ==> r.players[j].contributed.0 <= c
        &&& exists|j: int|
            0 <= j < r.players.len() && !(#[trigger] r.players[j]).folded
                && r.players[j].contributed.0 == c
    }
}

proof fn lemma_price(r: RoundModel, c: int)
    requires
        r.wf(),
        !r.done(),
        is_price(r, r.actor, c),
    ensures
        r.to_match() == c,
        has_rival(r, r.actor) == (r.live_count() >= 2),
{
    let k = r.actor;
    seqs::lemma_count_bounds(r.players, can_still_act());
    lemma_top_stake(r.players);
    assert(r.players[k].live());
    seqs::lemma_count_positive(r.players, k, can_still_act());
    if has_rival(r, k) {
        let j = choose|j: int|
            0 <= j < r.players.len() && j != k && !(#[trigger] r.players[j]).folded
                && r.players[j].stack.0 > 0;
        if j < k {
            seqs::lemma_count_two(r.players, j, k, can_still_act());
        } else {
            seqs::lemma_count_two(r.players, k, j, can_still_act());
        }
    } else {
        if r.live_count() >= 2 {
            let (i, j) = seqs::lemma_count_pair(r.players, can_still_act());
            assert(r.players[i].live() && r.players[j].live());
            assert(has_rival(r, k));
        }
        let j = choose|j: int|
            0 <= j < r.players.len() && !(#[trigger] r.players[j]).folded
                && r.players[j].contributed.0 == c;
        assert(r.players[j].contributed.0 <= top_stake(r.players));
        if top_stake(r.players) > 0 {
            let t = choose|t: int|
                0 <= t < r.players.len() && !(#[trigger] r.players[t]).folded
                    && r.players[t].contributed.0 == top_stake(r.players);
            assert(r.players[t].contributed.0 <= c);
        }
    }
}

/// The least that a raise must make the bet, where `c` is to be matched.
pub open spec fn least_raise(r: RoundModel, c: int) -> int {
    if c + r.last_full_raise.0 < u32::MAX {
        c + r.last_full_raise.0
    } else {
        u32::MAX as int
    }
}

/// Player `k`, who has to match `c`, may put in more than that: the player has
/// not acted since the last full raise, somebody else can answer, and there are
/// chips beyond the call.
pub open spec fn may_exceed(r: RoundModel, k: int, c: int) -> bool {
    let p = r.players[k];
    !p.acted && has_rival(r, k) && p.stack.0 + p.contributed.0 > c && p.stack.0 > 0
}

/// Which actions are open to the player whose turn it is, and why the others
/// are refused. `c` is what the player has to match.
pub proof fn law_which_actions_are_open(r: RoundModel, c: int, amount: Chips)
    requires
        r.wf(),
        !r.done(),
        is_price(r, r.actor, c),
    ensures
        ({
            let p = r.players[r.actor];
            let pid = p.player_id;
            let whole = p.stack.0 + p.contributed.0;
            let raise = PlayerAction::Raise { amount };
            let bad = Some(ActionError::InvalidAction);
            &&& r.current() == Some(pid)
            &&& r.refusal(pid, PlayerAction::Fold) is None
            &&& r.refusal(pid, PlayerAction::Call) is None
            &&& r.refusal(pid, PlayerAction::Check) == if p.contributed.0 < c {
                bad
            } else {
                None
            }
            &&& r.refusal(pid, PlayerAction::AllIn) == if whole <= c || may_exceed(
                r,
                r.actor,
                c,
            ) {
                None
            } else {
                bad
            }
            &&& amount.0 > whole ==> r.refusal(pid, raise) == bad
            &&& amount.0 == whole ==> r.refusal(pid, raise) == r.refusal(pid, PlayerAction::AllIn)
            &&& amount.0 < whole && !may_exceed(r, r.actor, c) ==> r.refusal(pid, raise) == bad
            &&& amount.0 < whole && may_exceed(r, r.actor, c) ==> r.refusal(pid, raise) == if (
            amount.0 <= c || amount.0 < least_raise(r, c)) {
                Some(ActionError::BelowMinRaise)
            } else {
                None
            }
            &&& r.refusal(pid, PlayerAction::Blind { kind: BlindKind::Straddle, amount }) == Some(
                ActionError::StraddleNotSupported,
            )
            &&& r.refusal(pid, PlayerAction::Blind { kind: BlindKind::Small, amount }) == bad
            &&& r.refusal(pid, PlayerAction::Blind { kind: BlindKind::Big, amount }) == bad
        }),
{
    lemma_price(r, c);
    lemma_actor_found(r);
}

proof fn lemma_actor_found(r: RoundModel)
    requires
        r.wf(),
        !r.done(),
    ensures
        r.index_of(r.players[r.actor].player_id) == r.actor,
{
    let pid = r.players[r.actor].player_id;
    let ids = player_ids(r.players);
    assert forall|j: int| 0 <= j < r.actor implies !is_player(pid)(#[trigger] r.players[j]) by {
        assert(ids[j] != ids[r.actor]);
    }
    seqs::lemma_first_index_is(r.players, r.actor, is_player(pid));
}

/// Nobody acts out of turn: a player whose turn it is not is refused, whatever
/// the action, and so is one who has folded or takes no part.
pub proof fn law_nobody_acts_out_of_turn(r: RoundModel, pid: PlayerId, action: PlayerAction)
    requires
        r.wf(),
        r.current() != Some(pid),
    ensures
        r.refusal(pid, action) is Some,
        (forall|k: int| 0 <= k < r.players.len() ==> (#[trigger] r.players[k]).player_id != pid)
            ==> r.refusal(pid, action) == Some(ActionError::NotInHand),
        (exists|k: int|
            0 <= k < r.players.len() && (#[trigger] r.players[k]).player_id == pid
                && r.players[k].folded) ==> r.refusal(pid, action) == Some(
            ActionError::AlreadyFolded,
        ),
        (exists|k: int|
            0 <= k < r.players.len() && (#[trigger] r.players[k]).player_id == pid
                && !r.players[k].folded) ==> r.refusal(pid, action) == Some(
            ActionError::NotYourTurn,
        ),
{
    let ids = player_ids(r.players);
    seqs::lemma_first_index(r.players, is_player(pid));
    let i = r.index_of(pid);
    assert forall|k: int| 0 <= k < r.players.len() && (
    #[trigger] r.players[k]).player_id == pid implies k == i by {
        assert(is_player(pid)(r.players[k]));
        assert(i <= k);
        assert(ids[i] == ids[k]);
    }
}

/// What an action that is open does. A call brings the player's chips to what
/// is to be matched, or as far as they go; a raise brings them to its amount;
/// an all-in puts in all there are; a check and a fold put in nothing. The bet
/// is the largest amount. Only a raise of the bet by at least the last full
/// raise counts as one, and gives the others their turn again.
pub proof fn law_what_an_action_does(r: RoundModel, c: int, action: PlayerAction)
    requires
        r.wf(),
        !r.done(),
        is_price(r, r.actor, c),
        r.refusal(r.players[r.actor].player_id, action) is None,
    ensures
        ({
            let i = r.actor;
            let p = r.players[i];
            let n = r.after(i, action);
            let q = n.players[i];
            let whole = p.stack.0 + p.contributed.0;
            let full = q.contributed.0 > r.bet.0 && q.contributed.0 - r.bet.0
                >= r.last_full_raise.0;
            &&& n.players.len() == r.players.len()
            &&& q.player_id == p.player_id
            &&& q.stack.0 + q.contributed.0 == whole
            &&& q.contributed.0 == match action {
                PlayerAction::Call => if c <= p.contributed.0 {
                    p.contributed.0 as int
                } else if c < whole {
                    c
                } else {
                    whole
                },
                PlayerAction::Raise { amount } => amount.0 as int,
                PlayerAction::AllIn => whole,
                _ => p.contributed.0 as int,
            }
            &&& q.folded == (action == PlayerAction::Fold)
            &&& q.acted
            &&& n.bet.0 == if q.contributed.0 > r.bet.0 {
                q.contributed.0
            } else {
                r.bet.0
            }
            &&& n.last_full_raise.0 == if full {
                q.contributed.0 - r.bet.0
            } else {
                r.last_full_raise.0 as int
            }
            &&& forall|j: int|
                0 <= j < r.players.len() && j != i ==> (#[trigger] n.players[j]) == (PlayerState {
                    acted: r.players[j].acted && !full,
                    ..r.players[j]
                })
        }),
{
    lemma_price(r, c);
    lemma_actor_found(r);
    let i = r.actor;
    let pid = r.players[i].player_id;
    law_action_moves_own_chips(r, pid, action);
    let chips = r.chips_for(i, action);
    lemma_moved(r, action is Fold, chips);
    let m = r.moved(i, action is Fold, chips);
    lemma_turned(m, r.seat_after(i), r.players.len());
    seqs::lemma_sum_member(r.players, i, all_chips());
}

/// A round opens with the players in the order given, nobody having folded or
/// acted. Where somebody has to act, the turn is with the first such player from
/// `first` on.
pub proof fn law_round_opens(
    players: Seq<(PlayerId, Chips)>,
    first: int,
    bet: Chips,
    raise: Chips,
)
    requires
        can_seat(players),
        0 <= first < players.len(),
    ensures
        ({
            let r = opened(seated(players), first, bet, raise);
            &&& r.players.len() == players.len()
            &&& forall|k: int|
                0 <= k < players.len() ==> (#[trigger] r.players[k]) == (PlayerState {
                    player_id: players[k].0,
                    stack: players[k].1,
                    contributed: Chips(0),
                    folded: false,
                    acted: false,
                })
            &&& r.bet == bet
            &&& r.last_full_raise == raise
            &&& !r.done() ==> exists|s: int| #[trigger] turn_is_first_from(r, first, s)
        }),
{
    let start = RoundModel {
        players: seated(players),
        actor: first,
        bet,
        last_full_raise: raise,
    };
    let r = opened(seated(players), first, bet, raise);
    lemma_turned(start, first, players.len());
    if !r.done() {
        lemma_done_same(start, r);
        let s = lemma_turn_given(start, first);
        assert(turn_is_first_from(r, first, s));
    }
}

/// Whether a round is over does not depend on whose turn it is.
pub proof fn lemma_done_same(a: RoundModel, b: RoundModel)
    requires
        a.players == b.players,
        a.bet == b.bet,
    ensures
        a.done() == b.done(),
{
    law_when_a_round_is_over(a);
    law_when_a_round_is_over(b);
    assert forall|k: int| waits(a, k) == waits(b, k) by {}
    assert forall|k: int| alone_and_level(a, k) == alone_and_level(b, k) by {}
}

impl BettingRound {
    /// What holds of every round.
    pub open spec fn wf(&self) -> bool {
        self@.wf()
    }

    /// Opens a round after the flop: nobody has put in anything, the bet is
    /// `current_bet`, and the least raise is `big_blind`.
    pub fn new(
        players: Vec<(PlayerId, Chips)>,
        first_actor: usize,
        current_bet: Chips,
        big_blind: Chips,
    ) -> (r: Self)
        requires
            can_seat(players@),
            first_actor < players@.len(),
        ensures
            r@ == opened(seated(players@), first_actor as int, current_bet, big_blind),
            r.wf(),
    {
        let states = Self::seat_all(&players);
        let mut r = BettingRound {
            players: states,
            actor: first_actor,
            bet: current_bet,
            last_full_raise: big_blind,
        };
        proof {
            lemma_seated(players@);
            lemma_turned_wf(r@, first_actor as int);
        }
        r.turn(first_actor);
        r
    }

    /// Opens the first round of a hand, in which `blinds` are posted in order.
    /// The bet and the least raise open at `bring_in`, or at the largest post
    /// where that is more.
    pub fn new_preflop(
        players: Vec<(PlayerId, Chips)>,
        first_actor: usize,
        blinds: &[(PlayerId, Chips)],
        bring_in: Chips,
    ) -> (r: Self)
        requires
            can_seat(players@),
            first_actor < players@.len(),
        ensures
            r@ == opened_preflop(players@, first_actor as int, blinds@, bring_in),
            r.wf(),
    {
        let states = Self::seat_all(&players);
        let mut r = BettingRound {
            players: states,
            actor: first_actor,
            bet: bring_in,
            last_full_raise: bring_in,
        };
        proof {
            lemma_seated(players@);
        }
        let mut k: usize = 0;
        while k < blinds.len()
            invariant
                k <= blinds@.len(),
                can_seat(players@),
                first_actor < players@.len(),
                r.actor == first_actor,
                r.players@ == all_posted(seated(players@), blinds@.take(k as int)),
                seqs::sum_of(r.players@, all_chips()) <= u32::MAX,
                r.players@.len() == players@.len(),
            decreases blinds@.len() - k,
        {
            proof {
                assert(blinds@.take(k + 1).drop_last() =~= blinds@.take(k as int));
                lemma_posted(r.players@, blinds@[k as int].0, blinds@[k as int].1);
            }
            r.post(blinds[k].0, blinds[k].1);
            k = k + 1;
        }
        proof {
            assert(blinds@.take(k as int) =~= blinds@);
            lemma_all_posted(seated(players@), blinds@);
        }
        let top: u32 = r.top();
        let bet = if bring_in.0 >= top {
            bring_in
        } else {
            Chips(top)
        };
        r.bet = bet;
        r.last_full_raise = bet;
        proof {
            lemma_top_stake(r.players@);
            lemma_turned_wf(r@, first_actor as int);
        }
        r.turn(first_actor);
        r
    }

    fn seat_all(players: &Vec<(PlayerId, Chips)>) -> (states: Vec<PlayerState>)
        ensures
            states@ == seated(players@),
    {
        let mut states: Vec<PlayerState> = Vec::new();
        let mut i: usize = 0;
        while i < players.len()
            invariant
                i <= players@.len(),
                states@ == seated(players@).take(i as int),
            decreases players@.len() - i,
        {
            states.push(
                PlayerState {
                    player_id: players[i].0,
                    stack: players[i].1,
                    contributed: Chips(0),
                    folded: false,
                    acted: false,
                },
            );
            assert(states@ =~= seated(players@).take(i + 1));
            i = i + 1;
        }
        assert(states@ =~= seated(players@));
        states
    }

    fn post(&mut self, pid: PlayerId, amount: Chips)
        requires
            seqs::sum_of(old(self).players@, all_chips()) <= u32::MAX,
        ensures
            final(self).players@ == posted(old(self).players@, pid, amount),
            final(self).actor == old(self).actor,
    {
        let i: usize = self.find(pid);
        if i < self.players.len() {
            let p = self.players[i];
            proof {
                seqs::lemma_sum_member(self.players@, i as int, all_chips());
            }
            let chips: u32 = if amount.0 < p.stack.0 {
                amount.0
            } else {
                p.stack.0
            };
            self.players[i] = PlayerState {
                stack: Chips(p.stack.0 - chips),
                contributed: Chips(p.contributed.0 + chips),
                ..p
            };
        }
    }

    fn find(&self, pid: PlayerId) -> (i: usize)
        ensures
            i == seqs::first_index(self.players@, is_player(pid)),
            i <= self.players@.len(),
            i < self.players@.len() ==> self.players@[i as int].player_id == pid,
    {
        let mut i: usize = 0;
        while i < self.players.len()
            invariant
                i <= self.players@.len(),
                forall|j: int| 0 <= j < i ==> !is_player(pid)(#[trigger] self.players@[j]),
            decreases self.players@.len() - i,
        {
            if self.players[i].player_id == pid {
                proof {
                    seqs::lemma_first_index_is(self.players@, i as int, is_player(pid));
                }
                return i;
            }
            i = i + 1;
        }
        proof {
            seqs::lemma_first_index_is(self.players@, i as int, is_player(pid));
        }
        i
    }

    fn top(&self) -> (r: u32)
        ensures
            r == top_stake(self.players@),
    {
        let mut top: u32 = 0;
        let mut i: usize = 0;
        while i < self.players.len()
            invariant
                i <= self.players@.len(),
                top == top_stake(self.players@.take(i as int)),
            decreases self.players@.len() - i,
        {
            assert(self.players@.take(i + 1).drop_last() =~= self.players@.take(i as int));
            if !self.players[i].folded && self.players[i].contributed.0 > top {
                top = self.players[i].contributed.0;
            }
            i = i + 1;
        }
        assert(self.players@.take(i as int) =~= self.players@);
        top
    }

    fn count_in(&self) -> (n: usize)
        ensures
            n == self@.in_count(),
    {
        let mut n: usize = 0;
        let mut i: usize = 0;
        while i < self.players.len()
            invariant
                i <= self.players@.len(),
                n <= i,
                n == seqs::count_of(self.players@.take(i as int), not_folded()),
            decreases self.players@.len() - i,
        {
            proof {
                seqs::lemma_count_take(self.players@, i as int, not_folded());
            }
            if !self.players[i].folded {
                n = n + 1;
            }
            i = i + 1;
        }
        assert(self.players@.take(i as int) =~= self.players@);
        n
    }

    fn count_live(&self) -> (n: usize)
        ensures
            n == self@.live_count(),
    {
        let mut n: usize = 0;
        let mut i: usize = 0;
        while i < self.players.len()
            invariant
                i <= self.players@.len(),
                n <= i,
                n == seqs::count_of(self.players@.take(i as int), can_still_act()),
            decreases self.players@.len() - i,
        {
            proof {
                seqs::lemma_count_take(self.players@, i as int, can_still_act());
            }
            if self.players[i].can_act() {
                n = n + 1;
            }
            i = i + 1;
        }
        assert(self.players@.take(i as int) =~= self.players@);
        n
    }

    fn must_act(&self, i: usize) -> (r: bool)
        requires
            i < self.players@.len(),
        ensures
            r == self@.owes_action(i as int),
    {
        let p = self.players[i];
        p.can_act() && !(p.acted && p.contributed.0 == self.bet.0)
    }

    fn turn(&mut self, from: usize)
        requires
            from < old(self).players@.len(),
        ensures
            final(self)@ == old(self)@.turned(from as int, old(self)@.players.len()),
    {
        let n: usize = self.players.len();
        let mut i: usize = from;
        let mut left: usize = n;
        while left > 0
            invariant
                n == self.players@.len(),
                i < n,
                left <= n,
                self@ == old(self)@,
                self@.turned(i as int, left as nat) == old(self)@.turned(
                    from as int,
                    old(self)@.players.len(),
                ),
            decreases left,
        {
            if self.must_act(i) {
                self.actor = i;
                assert(self@ =~= old(self)@.turned(from as int, old(self)@.players.len()));
                return;
            }
            i = if i + 1 < n {
                i + 1
            } else {
                0
            };
            left = left - 1;
        }
    }

    /// Whether the round is over.
    pub fn is_done(&self) -> (r: bool)
        ensures
            r == self@.done(),
    {
        if self.count_in() <= 1 {
            return true;
        }
        let lone: bool = self.count_live() == 1;
        let top: u32 = self.top();
        let mut settled: bool = true;
        let mut covered: bool = true;
        let mut i: usize = 0;
        while i < self.players.len()
            invariant
                i <= self.players@.len(),
                top == top_stake(self.players@),
                settled <==> forall|j: int| 0 <= j < i ==> !(#[trigger] self@.owes_action(j)),
                covered <==> forall|j: int|
                    0 <= j < i && (#[trigger] self@.players[j]).live()
                        ==> self@.players[j].contributed.0 >= top,
            decreases self.players@.len() - i,
        {
            let p = self.players[i];
            assert(self@.players[i as int] == p);
            if self.must_act(i) {
                settled = false;
            }
            if p.can_act() && p.contributed.0 < top {
                covered = false;
            }
            i = i + 1;
        }
        settled || (lone && covered)
    }

    /// Whose turn it is; nobody's once the round is over.
    pub fn current_player(&self) -> (r: Option<PlayerId>)
        requires
            self.wf(),
        ensures
            r == self@.current(),
    {
        if self.is_done() {
            None
        } else {
            Some(self.players[self.actor].player_id)
        }
    }

    /// The bet to match.
    pub fn current_bet(&self) -> (r: Chips)
        ensures
            r.0 == self@.to_match(),
    {
        if self.count_live() <= 1 {
            Chips(self.top())
        } else {
            self.bet
        }
    }

    /// The least bet that a raise may make.
    pub fn min_raise_to(&self) -> (r: Chips)
        ensures
            r.0 == self@.min_raise_total(),
    {
        self.current_bet().saturating_add(self.last_full_raise)
    }

    fn owed_by(&self, i: usize) -> (r: u32)
        requires
            i < self.players@.len(),
        ensures
            r == self@.owed(i as int),
    {
        let bet: u32 = self.current_bet().0;
        let put_in: u32 = self.players[i].contributed.0;
        if bet > put_in {
            bet - put_in
        } else {
            0
        }
    }

    fn can_raise(&self, i: usize) -> (r: bool)
        requires
            i < self.players@.len(),
        ensures
            r == self@.may_raise(i as int),
    {
        !self.players[i].acted && self.count_live() >= 2 && self.players[i].stack.0 > self.owed_by(
            i,
        )
    }

    /// Whether the player whose turn it is may raise.
    pub fn current_player_can_raise(&self) -> (r: bool)
        requires
            self.wf(),
        ensures
            r == (!self@.done() && self@.may_raise(self@.actor)),
    {
        !self.is_done() && self.can_raise(self.actor)
    }

    /// The chips put in on this street.
    pub fn pot_total(&self) -> (r: Chips)
        requires
            self.wf(),
        ensures
            r.0 == self@.pot(),
    {
        let mut total: u32 = 0;
        let mut i: usize = 0;
        proof {
            lemma_pot_fits(self.players@);
        }
        while i < self.players.len()
            invariant
                i <= self.players@.len(),
                seqs::sum_of(self.players@, street_chips()) <= u32::MAX,
                total == seqs::sum_of(self.players@.take(i as int), street_chips()),
            decreases self.players@.len() - i,
        {
            proof {
                seqs::lemma_sum_take(self.players@, i as int, street_chips());
                seqs::lemma_sum_prefix(self.players@, i + 1, street_chips());
            }
            total = total + self.players[i].contributed.0;
            i = i + 1;
        }
        assert(self.players@.take(i as int) =~= self.players@);
        Chips(total)
    }

    /// What `pid` has put in on this street; nothing where the player takes no part.
    pub fn player_contributed(&self, pid: PlayerId) -> (r: Chips)
        ensures
            r == contributed_by(self@, pid),
    {
        let i: usize = self.find(pid);
        if i < self.players.len() {
            self.players[i].contributed
        } else {
            Chips(0)
        }
    }

    /// What `pid` owes to stay in; nothing where the player takes no part.
    pub fn to_call(&self, pid: PlayerId) -> (r: Chips)
        ensures
            r.0 == if self@.index_of(pid) < self@.players.len() {
                self@.owed(self@.index_of(pid))
            } else {
                0
            },
    {
        let i: usize = self.find(pid);
        if i < self.players.len() {
            Chips(self.owed_by(i))
        } else {
            Chips(0)
        }
    }

    /// Whether `pid` takes part and has folded.
    pub fn player_folded(&self, pid: PlayerId) -> (r: bool)
        ensures
            r == (self@.index_of(pid) < self@.players.len() && self@.players[self@.index_of(
                pid,
            )].folded),
    {
        let i: usize = self.find(pid);
        i < self.players.len() && self.players[i].folded
    }

    /// Whether `pid` takes part and has no chips left.
    pub fn player_all_in(&self, pid: PlayerId) -> (r: bool)
        ensures
            r == (self@.index_of(pid) < self@.players.len() && self@.players[self@.index_of(
                pid,
            )].stack.0 == 0),
    {
        let i: usize = self.find(pid);
        i < self.players.len() && self.players[i].stack.0 == 0
    }

    /// The players of the round.
    pub fn player_states(&self) -> (r: &[PlayerState])
        ensures
            r@ == self@.players,
    {
        self.players.as_slice()
    }

    /// The players who must still act before the round can end.
    pub fn players_yet_to_act(&self) -> (r: Vec<PlayerId>)
        ensures
            r@ == yet_to_act(self@, self@.players.len()),
    {
        let mut ids: Vec<PlayerId> = Vec::new();
        let mut i: usize = 0;
        while i < self.players.len()
            invariant
                i <= self.players@.len(),
                ids@ == yet_to_act(self@, i as nat),
            decreases self.players@.len() - i,
        {
            if self.must_act(i) {
                ids.push(self.players[i].player_id);
            }
            i = i + 1;
        }
        ids
    }

    /// The pots that the chips of this street make.
    pub fn side_pots(&self) -> (r: Vec<SidePot>)
        requires
            self.wf(),
        ensures
            sidepot::pots_view(r@) == sidepot::pots_of(round_stakes(self@.players)),
            sidepot::pots_total(sidepot::pots_view(r@)) == self@.pot(),
    {
        let mut stakes: Vec<Stake> = Vec::new();
        let mut i: usize = 0;
        while i < self.players.len()
            invariant
                i <= self.players@.len(),
                stakes@ == round_stakes(self.players@).take(i as int),
            decreases self.players@.len() - i,
        {
            stakes.push(
                Stake {
                    player_id: self.players[i].player_id,
                    amount: self.players[i].contributed.0,
                    live: !self.players[i].folded,
                },
            );
            assert(stakes@ =~= round_stakes(self.players@).take(i + 1));
            i = i + 1;
        }
        proof {
            assert(stakes@ =~= round_stakes(self.players@));
            lemma_round_stakes(self@);
            sidepot::law_pots_hold_all_stakes(stakes@);
        }
        layer_pots(&stakes)
    }

    fn refuse(&self, pid: PlayerId, action: &PlayerAction) -> (r: Option<ActionError>)
        requires
            self.wf(),
        ensures
            r == self@.refusal(pid, *action),
    {
        let i: usize = self.find(pid);
        if i >= self.players.len() {
            return Some(ActionError::NotInHand);
        }
        let p = self.players[i];
        if p.folded {
            return Some(ActionError::AlreadyFolded);
        }
        match self.current_player() {
            Some(id) => {
                if id != pid {
                    return Some(ActionError::NotYourTurn);
                }
            },
            None => {
                return Some(ActionError::NotYourTurn);
            },
        }
        proof {
            seqs::lemma_sum_member(self.players@, i as int, all_chips());
        }
        let whole: u32 = p.stack.0 + p.contributed.0;
        let bet: u32 = self.current_bet().0;
        match *action {
            PlayerAction::Fold | PlayerAction::Call => None,
            PlayerAction::Check => {
                if self.owed_by(i) > 0 {
                    Some(ActionError::InvalidAction)
                } else {
                    None
                }
            },
            PlayerAction::Raise { amount } => {
                if amount.0 > whole {
                    Some(ActionError::InvalidAction)
                } else if amount.0 == whole {
                    if whole > bet && !self.can_raise(i) {
                        Some(ActionError::InvalidAction)
                    } else {
                        None
                    }
                } else if !self.can_raise(i) {
                    Some(ActionError::InvalidAction)
                } else if amount.0 <= bet || amount.0 < self.min_raise_to().0 {
                    Some(ActionError::BelowMinRaise)
                } else {
                    None
                }
            },
            PlayerAction::AllIn => {
                if whole > bet && !self.can_raise(i) {
                    Some(ActionError::InvalidAction)
                } else {
                    None
                }
            },
            PlayerAction::Blind { kind, .. } => {
                if kind == BlindKind::Straddle {
                    Some(ActionError::StraddleNotSupported)
                } else {
                    Some(ActionError::InvalidAction)
                }
            },
        }
    }

    /// Applies an action of `pid` and passes the turn on. Returns the chips
    /// that moved from the player's stack to the pot. A refused action changes
    /// nothing.
    pub fn apply_action(&mut self, pid: PlayerId, action: &PlayerAction) -> (r: Result<
        Chips,
        ActionError,
    >)
        requires
            old(self).wf(),
        ensures
            final(self).wf(),
            match old(self)@.refusal(pid, *action) {
                Some(e) => r == Err::<Chips, ActionError>(e) && *final(self) == *old(self),
                None => {
                    let i = old(self)@.index_of(pid);
                    &&& r is Ok
                    &&& r->Ok_0.0 == old(self)@.chips_for(i, *action)
                    &&& final(self)@ == old(self)@.after(i, *action)
                },
            },
    {
        if let Some(e) = self.refuse(pid, action) {
            return Err(e);
        }
        let ghost before = self@;
        proof {
            lemma_chips_for(before, pid, *action);
            law_action_moves_own_chips(before, pid, *action);
            seqs::lemma_sum_member(before.players, before.actor, all_chips());
        }
        let i: usize = self.find(pid);
        let p = self.players[i];
        let chips: u32 = match *action {
            PlayerAction::Call => {
                let owed: u32 = self.owed_by(i);
                if owed < p.stack.0 {
                    owed
                } else {
                    p.stack.0
                }
            },
            PlayerAction::Raise { amount } => amount.0 - p.contributed.0,
            PlayerAction::AllIn => p.stack.0,
            _ => 0,
        };
        let fold: bool = action.is_fold();
        self.move_chips(i, fold, chips);
        let n: usize = self.players.len();
        let next: usize = if i + 1 < n {
            i + 1
        } else {
            0
        };
        self.turn(next);
        Ok(Chips(chips))
    }

    fn move_chips(&mut self, i: usize, fold: bool, chips: u32)
        requires
            i < old(self).players@.len() < u32::MAX,
            chips <= old(self).players@[i as int].stack.0,
            old(self).players@[i as int].contributed.0 + chips <= u32::MAX,
        ensures
            final(self)@ == old(self)@.moved(i as int, fold, chips as int),
    {
        let ghost before = self@;
        let p = self.players[i];
        let total: u32 = p.contributed.0 + chips;
        let full: bool = total > self.bet.0 && total - self.bet.0 >= self.last_full_raise.0;
        let n: usize = self.players.len();
        if full {
            let mut j: usize = 0;
            while j < n
                invariant
                    n == self.players@.len(),
                    j <= n,
                    n == before.players.len(),
                    self.actor == before.actor,
                    self.bet == before.bet,
                    self.last_full_raise == before.last_full_raise,
                    forall|k: int|
                        0 <= k < j ==> #[trigger] self.players@[k] == (PlayerState {
                            acted: false,
                            ..before.players[k]
                        }),
                    forall|k: int| j <= k < n ==> #[trigger] self.players@[k] == before.players[k],
                decreases n - j,
            {
                let q = self.players[j];
                self.players[j] = PlayerState { acted: false, ..q };
                j = j + 1;
            }
        }
        self.players[i] = PlayerState {
            stack: Chips(p.stack.0 - chips),
            contributed: Chips(total),
            folded: fold,
            acted: true,
            ..p
        };
        if full {
            self.last_full_raise = Chips(total - self.bet.0);
        }
        if total > self.bet.0 {
            self.bet = Chips(total);
        }
        assert(self@ =~= before.moved(i as int, fold, chips as int));
    }
}

/// What `pid` has put in; nothing where the player takes no part.
pub open spec fn contributed_by(r: RoundModel, pid: PlayerId) -> Chips {
    if r.index_of(pid) < r.players.len() {
        r.players[r.index_of(pid)].contributed
    } else {
        Chips(0)
    }
}

/// The players among the first `n` of the round who must still act.
pub open spec fn yet_to_act(r: RoundModel, n: nat) -> Seq<PlayerId>
    decreases n,
{
    if n == 0 {
        Seq::empty()
    } else if r.owes_action(n - 1) {
        yet_to_act(r, (n - 1) as nat).push(r.players[n - 1].player_id)
    } else {
        yet_to_act(r, (n - 1) as nat)
    }
}

/// Who must still act in a round.
pub open spec fn is_waiting(bet: Chips) -> spec_fn(PlayerState) -> bool {
    |p: PlayerState| !p.folded && p.stack.0 > 0 && (!p.acted || p.contributed.0 != bet.0)
}

/// What a round tells of the player at place `k`, where `c` is to be matched:
/// the chips put in, the chips owed, the least raise, whether the player whose
/// turn it is may raise, and who must still act. The pot is what all have put
/// in, and the side pots are the layers of it.
pub proof fn law_what_a_round_tells(r: RoundModel, k: int, c: int)
    requires
        r.wf(),
        0 <= k < r.players.len(),
    ensures
        r.index_of(r.players[k].player_id) == k,
        contributed_by(r, r.players[k].player_id) == r.players[k].contributed,
        !r.done() && is_price(r, r.actor, c) ==> {
            let put_in = r.players[k].contributed.0;
            &&& r.to_match() == c
            &&& put_in <= c ==> put_in + r.owed(k) == c
            &&& put_in > c ==> r.owed(k) == 0
            &&& r.min_raise_total() == least_raise(r, c)
            &&& r.may_raise(r.actor) == may_exceed(r, r.actor, c)
        },
        seqs::is_told(
            yet_to_act(r, r.players.len()),
            r.players,
            is_waiting(r.bet),
            |p: PlayerState| p.player_id,
        ),
        r.pot() == seqs::sum_of(r.players, |p: PlayerState| p.contributed.0 as int),
        sidepot::layered_right(
            sidepot::pots_of(round_stakes(r.players)),
            Seq::new(
                r.players.len(),
                |i: int|
                    Stake {
                        player_id: r.players[i].player_id,
                        amount: r.players[i].contributed.0,
                        live: !r.players[i].folded,
                    },
            ),
        ),
{
    let pid = r.players[k].player_id;
    let ids = player_ids(r.players);
    seqs::lemma_sum_same(
        r.players,
        r.players,
        street_chips(),
        |p: PlayerState| p.contributed.0 as int,
    );
    let stakes = round_stakes(r.players);
    assert(stakes =~= Seq::new(
        r.players.len(),
        |i: int|
            Stake {
                player_id: r.players[i].player_id,
                amount: r.players[i].contributed.0,
                live: !r.players[i].folded,
            },
    ));
    assert(sidepot::stake_ids(stakes) =~= ids);
    lemma_round_stakes(r);
    sidepot::law_pots_are_the_layers_of_the_stakes(stakes);
    assert forall|j: int| 0 <= j < k implies !is_player(pid)(#[trigger] r.players[j]) by {
        assert(ids[j] != ids[k]);
    }
    seqs::lemma_first_index_is(r.players, k, is_player(pid));
    if !r.done() && is_price(r, r.actor, c) {
        lemma_price(r, c);
    }
    let f = |p: PlayerState| p.player_id;
    lemma_yet_to_act(r, r.players.len(), f);
    assert(r.players.take(r.players.len() as int) =~= r.players);
    seqs::lemma_pick_told(r.players, is_waiting(r.bet), f);
}

proof fn lemma_yet_to_act(r: RoundModel, n: nat, f: spec_fn(PlayerState) -> PlayerId)
    requires
        n <= r.players.len(),
        f == (|p: PlayerState| p.player_id),
    ensures
        yet_to_act(r, n) == seqs::pick(r.players.take(n as int), is_waiting(r.bet), f),
    decreases n,
{
    if n > 0 {
        lemma_yet_to_act(r, (n - 1) as nat, f);
        seqs::lemma_pick_take(r.players, n - 1, is_waiting(r.bet), f);
        assert(is_waiting(r.bet)(r.players[n - 1]) == r.owes_action(n - 1));
    }
}

/// The chips of a street are among all the chips.
pub proof fn lemma_pot_fits(players: Seq<PlayerState>)
    ensures
        0 <= seqs::sum_of(players, street_chips()) <= seqs::sum_of(players, all_chips()),
    decreases players.len(),
{
    if players.len() > 0 {
        lemma_pot_fits(players.drop_last());
    }
}

/// The stakes of a round hold the chips of the street, and somebody is left.
pub proof fn lemma_round_stakes(r: RoundModel)
    requires
        r.wf(),
    ensures
        seqs::sum_of(round_stakes(r.players), sidepot::stake_amount()) == r.pot(),
        0 <= r.pot() <= u32::MAX,
        seqs::count_of(round_stakes(r.players), sidepot::stake_live()) == r.in_count(),
{
    seqs::lemma_sum_same(
        round_stakes(r.players),
        r.players,
        sidepot::stake_amount(),
        street_chips(),
    );
    seqs::lemma_count_same(round_stakes(r.players), r.players, sidepot::stake_live(), not_folded());
    lemma_pot_fits(r.players);
}

/// Seating gives everybody a place and keeps the chips.
pub proof fn lemma_seated(players: Seq<(PlayerId, Chips)>)
    requires
        can_seat(players),
    ensures
        seated(players).len() == players.len(),
        seqs::distinct(player_ids(seated(players))),
        seqs::sum_of(seated(players), all_chips()) == seqs::sum_of(players, seat_chips()),
        seqs::sum_of(seated(players), street_chips()) == 0,
        seqs::count_of(seated(players), not_folded()) >= 1,
{
    let s = seated(players);
    let ids = Seq::new(players.len(), |i: int| players[i].0);
    assert(player_ids(s) =~= ids);
    seqs::lemma_sum_same(s, players, all_chips(), seat_chips());
    seqs::lemma_count_positive(s, 0, not_folded());
    sidepot::lemma_sum_zero(s, street_chips());
}

/// The same player with the same chips in all, folded or not alike.
pub open spec fn same_player(a: PlayerState, b: PlayerState) -> bool {
    a.player_id == b.player_id && a.stack.0 + a.contributed.0 == b.stack.0 + b.contributed.0
        && a.folded == b.folded
}

/// Posting keeps the players, their chips and who is in the hand.
pub proof fn lemma_posted(players: Seq<PlayerState>, pid: PlayerId, amount: Chips)
    requires
        seqs::sum_of(players, all_chips()) <= u32::MAX,
    ensures
        posted(players, pid, amount).len() == players.len(),
        player_ids(posted(players, pid, amount)) == player_ids(players),
        seqs::sum_of(posted(players, pid, amount), all_chips()) == seqs::sum_of(
            players,
            all_chips(),
        ),
        seqs::count_of(posted(players, pid, amount), not_folded()) == seqs::count_of(
            players,
            not_folded(),
        ),
        forall|i: int|
            0 <= i < players.len() ==> same_player(
                #[trigger] posted(players, pid, amount)[i],
                players[i],
            ),
        ({
            let i = seqs::first_index(players, is_player(pid));
            let chips = if i >= players.len() {
                0
            } else if amount.0 < players[i].stack.0 {
                amount.0
            } else {
                players[i].stack.0
            };
            seqs::sum_of(posted(players, pid, amount), street_chips()) == seqs::sum_of(
                players,
                street_chips(),
            )
                + chips
        }),
{
    seqs::lemma_first_index(players, is_player(pid));
    let i = seqs::first_index(players, is_player(pid));
    if i < players.len() {
        let p = posted(players, pid, amount)[i];
        seqs::lemma_sum_member(players, i, all_chips());
        seqs::lemma_sum_update(players, i, p, all_chips());
        seqs::lemma_sum_update(players, i, p, street_chips());
        seqs::lemma_count_update(players, i, p, not_folded());
        assert(player_ids(posted(players, pid, amount)) =~= player_ids(players));
    }
}

/// Posting all the blinds keeps the players, their chips and who is in the hand.
pub proof fn lemma_all_posted(players: Seq<PlayerState>, blinds: Seq<(PlayerId, Chips)>)
    requires
        seqs::sum_of(players, all_chips()) <= u32::MAX,
    ensures
        all_posted(players, blinds).len() == players.len(),
        player_ids(all_posted(players, blinds)) == player_ids(players),
        seqs::sum_of(all_posted(players, blinds), all_chips()) == seqs::sum_of(
            players,
            all_chips(),
        ),
        seqs::count_of(all_posted(players, blinds), not_folded()) == seqs::count_of(
            players,
            not_folded(),
        ),
        forall|i: int|
            0 <= i < players.len() ==> same_player(
                #[trigger] all_posted(players, blinds)[i],
                players[i],
            ),
    decreases blinds.len(),
{
    if blinds.len() > 0 {
        lemma_all_posted(players, blinds.drop_last());
        lemma_posted(
            all_posted(players, blinds.drop_last()),
            blinds.last().0,
            blinds.last().1,
        );
        let rest = all_posted(players, blinds.drop_last());
        let all = all_posted(players, blinds);
        assert forall|i: int| 0 <= i < players.len() implies same_player(
            #[trigger] all[i],
            players[i],
        ) by {
            assert(same_player(all[i], rest[i]));
            assert(same_player(rest[i], players[i]));
        }
    }
}

} // verus!
