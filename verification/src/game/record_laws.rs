//! What the records of a hand say of its betting.

use crate::action::{ActionRecord, BlindKind, PlayerAction};
use crate::game::action_laws;
use crate::game::actions;
use crate::game::invariants;
use crate::game::model;
use crate::hand::Street;
use crate::player::PlayerId;
use crate::seqs;
use super::model::HandModel;
use super::StreetActionFact;
use vstd::prelude::*;

verus! {

/// What was put in by the action at `j` and the actions before it by its player
/// on its street.
pub open spec fn total_at(actions: Seq<ActionRecord>, j: int) -> int {
    seqs::sum_of(
        actions.take(j + 1),
        model::amount_by(actions[j].street, actions[j].player_id),
    )
}

/// The action at `j` is a raise or an all-in on `street`.
pub open spec fn is_bold(actions: Seq<ActionRecord>, street: Street, j: int) -> bool {
    actions[j].street == street && match actions[j].action {
        PlayerAction::Raise { .. } => true,
        PlayerAction::AllIn => true,
        _ => false,
    }
}

/// A player chose the action at `j`, on `street`.
pub open spec fn is_choice(actions: Seq<ActionRecord>, street: Street, j: int) -> bool {
    actions[j].street == street && !(actions[j].action is Blind)
}

/// How many of the actions before `j` were chosen on `street`.
pub open spec fn choices_before(actions: Seq<ActionRecord>, street: Street, j: int) -> int
    decreases j,
{
    if j <= 0 {
        0
    } else {
        choices_before(actions, street, j - 1) + if is_choice(actions, street, j - 1) {
            1int
        } else {
            0int
        }
    }
}

/// The bet before the action at `j`: the opening bet, or the most that a raise
/// or all-in before it brought a player to.
pub open spec fn bet_before(actions: Seq<ActionRecord>, street: Street, bet: int, j: int) -> int
    decreases j,
{
    if j <= 0 {
        bet
    } else {
        let b = bet_before(actions, street, bet, j - 1);
        if is_bold(actions, street, j - 1) && total_at(actions, j - 1) > b {
            total_at(actions, j - 1)
        } else {
            b
        }
    }
}

/// The action at `j` raises the bet.
pub open spec fn raises_bet(actions: Seq<ActionRecord>, street: Street, bet: int, j: int) -> bool {
    is_bold(actions, street, j) && total_at(actions, j) > bet_before(actions, street, bet, j)
}

/// By how much the action at `j` raises the bet.
pub open spec fn raise_size(actions: Seq<ActionRecord>, street: Street, bet: int, j: int) -> int {
    total_at(actions, j) - bet_before(actions, street, bet, j)
}

/// The size of the last full raise before the action at `j`; a raise is full
/// where it is at least as large as that.
pub open spec fn full_size_before(
    actions: Seq<ActionRecord>,
    street: Street,
    bet: int,
    raise: int,
    j: int,
) -> int
    decreases j,
{
    if j <= 0 {
        raise
    } else {
        let f = full_size_before(actions, street, bet, raise, j - 1);
        if raises_bet(actions, street, bet, j - 1) && raise_size(actions, street, bet, j - 1)
            >= f {
            raise_size(actions, street, bet, j - 1)
        } else {
            f
        }
    }
}

/// What is told of each action that a player chose on a street: that it raised
/// the bet exactly where it is a raise or an all-in that brings the player's
/// chips on the street above the bet, and that the raise was full exactly where
/// it was at least as large as the last full one.
pub proof fn law_facts_tell_what_was_raised(
    actions: Seq<ActionRecord>,
    street: Street,
    bet: int,
    raise: int,
)
    ensures
        ({
            let facts = model::street_story(actions, street, bet, raise).facts;
            &&& facts.len() == choices_before(actions, street, actions.len() as int)
            &&& forall|j: int|
                0 <= j < actions.len() && is_choice(actions, street, j) ==> 0
                    <= #[trigger] choices_before(actions, street, j) < facts.len() && facts[
                choices_before(actions, street, j)] == (StreetActionFact {
                    player_id: actions[j].player_id,
                    action: actions[j].action,
                    increased_bet: raises_bet(actions, street, bet, j),
                    full_raise: raises_bet(actions, street, bet, j) && raise_size(
                        actions,
                        street,
                        bet,
                        j,
                    ) >= full_size_before(actions, street, bet, raise, j),
                })
        }),
{
    lemma_story(actions, street, bet, raise, actions.len() as int);
    assert(actions.take(actions.len() as int) =~= actions);
}

proof fn lemma_story(
    actions: Seq<ActionRecord>,
    street: Street,
    bet: int,
    raise: int,
    i: int,
)
    requires
        0 <= i <= actions.len(),
    ensures
        ({
            let story = model::street_story(actions.take(i), street, bet, raise);
            &&& story.bet == bet_before(actions, street, bet, i)
            &&& story.raise == full_size_before(actions, street, bet, raise, i)
            &&& story.facts.len() == choices_before(actions, street, i)
            &&& forall|j: int|
                0 <= j < i && is_choice(actions, street, j) ==> 0 <= #[trigger] choices_before(
                    actions,
                    street,
                    j,
                ) < story.facts.len() && story.facts[choices_before(actions, street, j)] == (
                StreetActionFact {
                    player_id: actions[j].player_id,
                    action: actions[j].action,
                    increased_bet: raises_bet(actions, street, bet, j),
                    full_raise: raises_bet(actions, street, bet, j) && raise_size(
                        actions,
                        street,
                        bet,
                        j,
                    ) >= full_size_before(actions, street, bet, raise, j),
                })
        }),
    decreases i,
{
    if i > 0 {
        lemma_story(actions, street, bet, raise, i - 1);
        let t = actions.take(i);
        let before = model::street_story(actions.take(i - 1), street, bet, raise);
        let story = model::street_story(t, street, bet, raise);
        assert(t.drop_last() =~= actions.take(i - 1));
        assert(t.last() == actions[i - 1]);
        assert forall|j: int| 0 <= j < i && is_choice(actions, street, j) implies 0
            <= #[trigger] choices_before(actions, street, j) < story.facts.len() && story.facts[
        choices_before(actions, street, j)] == (StreetActionFact {
            player_id: actions[j].player_id,
            action: actions[j].action,
            increased_bet: raises_bet(actions, street, bet, j),
            full_raise: raises_bet(actions, street, bet, j) && raise_size(
                actions,
                street,
                bet,
                j,
            ) >= full_size_before(actions, street, bet, raise, j),
        }) by {
            if j < i - 1 {
                let c = choices_before(actions, street, j);
                assert(before.facts[c] == story.facts[c]);
            } else {
                lemma_choices(actions, street, j);
            }
        }
    } else {
        assert(actions.take(0).len() == 0);
    }
}

proof fn lemma_choices(actions: Seq<ActionRecord>, street: Street, j: int)
    requires
        0 <= j,
    ensures
        choices_before(actions, street, j) >= 0,
    decreases j,
{
    if j > 0 {
        lemma_choices(actions, street, j - 1);
    }
}

/// The bet and the raise with which a street opens: the bring-in before the
/// flop, and nothing and the big blind after it.
pub proof fn law_facts_open_with_the_blinds(m: HandModel, street: Street)
    ensures
        m.facts_of(street) == model::street_story(
            m.actions,
            street,
            if street != Street::Preflop {
                0
            } else if m.preflop_bring_in.0 > m.big_blind.0 {
                m.preflop_bring_in.0 as int
            } else {
                m.big_blind.0 as int
            },
            if street != Street::Preflop || m.preflop_bring_in.0 <= m.big_blind.0 {
                m.big_blind.0 as int
            } else {
                m.preflop_bring_in.0 as int
            },
        ).facts,
{
}

/// The last player to raise the bet is that of the last fact that says so.
pub proof fn law_last_raiser_is_the_last(facts: Seq<StreetActionFact>)
    ensures
        model::last_raiser(facts) is None <==> forall|i: int|
            0 <= i < facts.len() ==> !(#[trigger] facts[i]).increased_bet,
        forall|i: int|
            0 <= i < facts.len() && (#[trigger] facts[i]).increased_bet && (forall|j: int|
                i < j < facts.len() ==> !(#[trigger] facts[j]).increased_bet)
                ==> model::last_raiser(facts) == Some(facts[i].player_id),
    decreases facts.len(),
{
    if facts.len() > 0 {
        let t = facts.drop_last();
        law_last_raiser_is_the_last(t);
        assert forall|i: int| 0 <= i < t.len() implies t[i] == #[trigger] facts[i] by {}
        let n = facts.len() - 1;
        if facts[n].increased_bet {
        } else {
            assert forall|i: int|
                0 <= i < facts.len() && (#[trigger] facts[i]).increased_bet && (forall|j: int|
                    i < j < facts.len() ==> !(#[trigger] facts[j]).increased_bet)
                implies model::last_raiser(facts) == Some(facts[i].player_id) by {
                assert(t[i].increased_bet);
                assert forall|j: int| i < j < t.len() implies !(
                #[trigger] t[j]).increased_bet by {
                    assert(t[j] == facts[j]);
                }
            }
            if model::last_raiser(facts) is None {
                assert forall|i: int| 0 <= i < facts.len() implies !(
                #[trigger] facts[i]).increased_bet by {
                    if i < n {
                        assert(!t[i].increased_bet);
                    }
                }
            } else if forall|i: int| 0 <= i < facts.len() ==> !(
            #[trigger] facts[i]).increased_bet {
                assert forall|i: int| 0 <= i < t.len() implies !(
                #[trigger] t[i]).increased_bet by {
                    assert(!facts[i].increased_bet);
                }
            }
        }
    }
}

/// The last aggressor of a hand raised the bet on the last street on which
/// somebody did.
pub proof fn law_last_aggressor_is_of_the_last_street_raised(m: HandModel)
    ensures
        m.aggressor_up_to(3) == match (
            model::last_raiser(m.facts_of(Street::River)),
            model::last_raiser(m.facts_of(Street::Turn)),
            model::last_raiser(m.facts_of(Street::Flop)),
        ) {
            (Some(p), _, _) => Some(p),
            (None, Some(p), _) => Some(p),
            (None, None, Some(p)) => Some(p),
            (None, None, None) => model::last_raiser(m.facts_of(Street::Preflop)),
        },
{
    assert(m.aggressor_up_to(-1) is None);
    assert(m.aggressor_up_to(0) == model::last_raiser(m.facts_of(Street::Preflop)));
    assert(m.aggressor_up_to(1) == match model::last_raiser(m.facts_of(Street::Flop)) {
        Some(p) => Some(p),
        None => m.aggressor_up_to(0),
    });
    assert(m.aggressor_up_to(2) == match model::last_raiser(m.facts_of(Street::Turn)) {
        Some(p) => Some(p),
        None => m.aggressor_up_to(1),
    });
}

/// The action at `i` is the last on record of its player.
pub open spec fn is_last_of(actions: Seq<ActionRecord>, i: int) -> bool {
    &&& 0 <= i < actions.len()
    &&& forall|j: int|
        i < j < actions.len() ==> (#[trigger] actions[j]).player_id != actions[i].player_id
}

/// What is remembered as a player's last action is the last on record.
pub open spec fn remembers_last(m: HandModel) -> bool {
    forall|i: int| #[trigger]
        is_last_of(m.actions, i) ==> m.last_action.contains_key(m.actions[i].player_id.0)
            && m.last_action[m.actions[i].player_id.0] == m.actions[i].action
}

proof fn lemma_remembers_one_more(m: HandModel, n: HandModel)
    requires
        remembers_last(m),
        n.actions.len() == m.actions.len() + 1,
        forall|i: int| 0 <= i < m.actions.len() ==> #[trigger] n.actions[i] == m.actions[i],
        n.last_action == m.last_action.insert(
            n.actions.last().player_id.0,
            n.actions.last().action,
        ),
    ensures
        remembers_last(n),
{
    assert forall|i: int| #[trigger] is_last_of(n.actions, i) implies n.last_action.contains_key(
        n.actions[i].player_id.0,
    ) && n.last_action[n.actions[i].player_id.0] == n.actions[i].action by {
        let last = n.actions.len() - 1;
        if i < last {
            assert(n.actions[last].player_id != n.actions[i].player_id);
            assert(n.actions[last].player_id.0 != n.actions[i].player_id.0);
            assert(n.actions[i] == m.actions[i]);
            assert forall|j: int| i < j < m.actions.len() implies (
            #[trigger] m.actions[j]).player_id != m.actions[i].player_id by {
                assert(n.actions[j] == m.actions[j]);
            }
            assert(is_last_of(m.actions, i));
        }
    }
}

/// Beginning a hand and taking actions keep the players' last actions in step
/// with the records.
pub proof fn law_last_actions_are_on_record(m: HandModel, pid: PlayerId, action: PlayerAction)
    requires
        m.wf(),
        remembers_last(m),
    ensures
        remembers_last(m.started().0),
        remembers_last(m.applied(pid, action).0),
{
    if m.start_refusal() is None {
        let a = m.announced();
        let (sb, bb) = m.blinds();
        let p = m.post_of(sb, m.small_blind);
        let q = m.post_of(bb, m.big_blind);
        let one = a.recorded_post(sb, BlindKind::Small, m.small_blind, 0);
        let two = one.recorded_post(
            bb,
            BlindKind::Big,
            m.big_blind,
            p as int,
        );
        assert(remembers_last(a));
        lemma_remembers_one_more(a, one);
        lemma_remembers_one_more(one, two);
        if let Some(i) = m.straddler() {
            let three = two.recorded_post(
                i,
                BlindKind::Straddle,
                m.forced_straddle->Some_0,
                p + q,
            );
            lemma_remembers_one_more(two, three);
        }
        let b = a.blinds_recorded();
        assert(remembers_last(b));
        let d = b.holes_dealt();
        assert(d.actions == b.actions && d.last_action == b.last_action);
        if m.can_deal() {
            let o = d.preflop_opened().opening_reported(m.opening_posts());
            assert(o.actions == b.actions && o.last_action == b.last_action);
            if o.round->Some_0.done() {
                invariants::lemma_street_closed(o);
            }
        }
    }
    if m.refusal(pid, action) is None {
        invariants::lemma_seat_index(m, pid);
        action_laws::law_action_moves_the_players_seat(m, pid, action, m.seat_index(pid));
        lemma_remembers_one_more(m, m.applied(pid, action).0);
    }
}

/// A strategy sees every action with its player, in order: a raise or an all-in
/// that is no full raise as a call, every other action as it is.
pub proof fn law_strategies_see_short_raises_as_calls(facts: Seq<StreetActionFact>, i: int)
    requires
        0 <= i < facts.len(),
    ensures
        ({
            let seen = actions::strategy_of(facts);
            let f = facts[i];
            &&& seen.len() == facts.len()
            &&& seen[i].0 == f.player_id
            &&& (f.action is Raise || f.action is AllIn) && !f.full_raise ==> seen[i].1
                == PlayerAction::Call
            &&& f.full_raise || !(f.action is Raise || f.action is AllIn) ==> seen[i].1 == f.action
        }),
{
}

} // verus!
