//! Why a hand whose cards are dealt elsewhere goes wrong.

use crate::card::Card;
use crate::hand::Street;
use crate::player::PlayerId;
use crate::player;
use crate::text::decimal;
use crate::text;
use vstd::prelude::*;

verus! {

/// Why a hand whose cards are dealt elsewhere could not be settled.
#[derive(Debug, Clone, Copy, PartialEq, Eq, Structural)]
pub enum BlindFinishError {
    /// A player who is still in the hand has shown no cards.
    MissingReveal { player_id: PlayerId, seat: u8 },
    /// The hand is not over.
    NotDone,
    /// The engine has dealt this hand itself.
    NotBlindMode,
    /// Nobody would be left to share the pots of a hand that is broken off.
    NoSurvivor,
}

impl BlindFinishError {
    /// The text of [`BlindFinishError::to_string`].
    pub open spec fn message(self) -> Seq<char> {
        match self {
            BlindFinishError::MissingReveal { player_id, seat } => {
                "blind showdown: non-folded contender (player "@ + player_id.tag() + ", seat "@
                    + text::decimal_chars(seat as nat) + ") has no injected reveal"@
            },
            BlindFinishError::NotDone => {
                "finish_blind rejected: hand is not finished (phase != Done)"@
            },
            BlindFinishError::NotBlindMode => {
                "finish_blind rejected: hand is not in blind mode (use finish())"@
            },
            BlindFinishError::NoSurvivor => {
                "finish_blind_forfeit_board rejected: no honest survivor after force-folding withholders"@
            },
        }
    }

    /// The error in words.
    pub fn to_string(&self) -> (s: String)
        ensures
            s@ == self.message(),
    {
        match self {
            BlindFinishError::MissingReveal { player_id, seat } => {
                let mut s = String::from_str("blind showdown: non-folded contender (player ");
                s.append(player_id.tagged().as_str());
                s.append(", seat ");
                s.append(decimal(*seat as u64).as_str());
                s.append(") has no injected reveal");
                s
            },
            BlindFinishError::NotDone => {
                String::from_str("finish_blind rejected: hand is not finished (phase != Done)")
            },
            BlindFinishError::NotBlindMode => {
                String::from_str("finish_blind rejected: hand is not in blind mode (use finish())")
            },
            BlindFinishError::NoSurvivor => {
                String::from_str(
                    "finish_blind_forfeit_board rejected: no honest survivor after force-folding withholders",
                )
            },
        }
    }
}

/// Why cards dealt elsewhere were not taken.
#[derive(Debug, Clone, Copy, PartialEq, Eq, Structural)]
pub enum BlindInjectError {
    /// The engine deals this hand itself.
    NotBlindMode,
    /// No street waits for its cards.
    NoBoardPending,
    /// The street brings another number of cards.
    WrongBoardCount { street: Street, expected: usize, got: usize },
    /// Nobody in the hand has this number.
    UnknownPlayer(PlayerId),
    /// The player has folded; folded cards stay hidden.
    PlayerFolded(PlayerId),
    /// The hand is not over.
    NotAtShowdown,
    /// The card is on the board or in a hand already.
    DuplicateCard { card: Card },
    /// The player has shown other cards before.
    AlreadyRevealed(PlayerId),
}

impl BlindInjectError {
    /// The text of [`BlindInjectError::to_string`].
    pub open spec fn message(self) -> Seq<char> {
        match self {
            BlindInjectError::NotBlindMode => "injection rejected: hand is not in blind mode"@,
            BlindInjectError::NoBoardPending => {
                "no board is pending injection for the current street"@
            },
            BlindInjectError::WrongBoardCount { street, expected, got } => {
                "wrong board card count for "@ + street.label()@ + ": expected "@
                    + text::decimal_chars(expected as nat) + ", got "@ + text::decimal_chars(got as nat)
            },
            BlindInjectError::UnknownPlayer(pid) => {
                "showdown reveal rejected: no seat with player id "@ + pid.tag()
            },
            BlindInjectError::PlayerFolded(pid) => {
                "showdown reveal rejected: player "@ + pid.tag()
                    + " has folded (folded cards stay sealed)"@
            },
            BlindInjectError::NotAtShowdown => {
                "showdown reveal rejected: hand is not at showdown (not done)"@
            },
            BlindInjectError::DuplicateCard { card } => {
                "injection rejected: duplicate card "@ + card.notation()
            },
            BlindInjectError::AlreadyRevealed(pid) => {
                "showdown reveal rejected: player "@ + pid.tag()
                    + " is already revealed with different cards"@
            },
        }
    }

    /// The error in words.
    pub fn to_string(&self) -> (s: String)
        ensures
            s@ == self.message(),
    {
        match self {
            BlindInjectError::NotBlindMode => {
                String::from_str("injection rejected: hand is not in blind mode")
            },
            BlindInjectError::NoBoardPending => {
                String::from_str("no board is pending injection for the current street")
            },
            BlindInjectError::WrongBoardCount { street, expected, got } => {
                let mut s = String::from_str("wrong board card count for ");
                s.append(street.to_string().as_str());
                s.append(": expected ");
                s.append(decimal(*expected as u64).as_str());
                s.append(", got ");
                s.append(decimal(*got as u64).as_str());
                s
            },
            BlindInjectError::UnknownPlayer(pid) => {
                let mut s = String::from_str("showdown reveal rejected: no seat with player id ");
                s.append(pid.tagged().as_str());
                s
            },
            BlindInjectError::PlayerFolded(pid) => {
                let mut s = String::from_str("showdown reveal rejected: player ");
                s.append(pid.tagged().as_str());
                s.append(" has folded (folded cards stay sealed)");
                s
            },
            BlindInjectError::NotAtShowdown => {
                String::from_str("showdown reveal rejected: hand is not at showdown (not done)")
            },
            BlindInjectError::DuplicateCard { card } => {
                let mut s = String::from_str("injection rejected: duplicate card ");
                s.append(card.to_string().as_str());
                s
            },
            BlindInjectError::AlreadyRevealed(pid) => {
                let mut s = String::from_str("showdown reveal rejected: player ");
                s.append(pid.tagged().as_str());
                s.append(" is already revealed with different cards");
                s
            },
        }
    }
}

/// The errors about a player name the player: their texts tell players apart.
pub proof fn law_errors_name_the_player(a: PlayerId, b: PlayerId, s: u8, t: u8)
    ensures
        BlindInjectError::UnknownPlayer(a).message() == BlindInjectError::UnknownPlayer(b).message()
            ==> a == b,
        BlindInjectError::PlayerFolded(a).message() == BlindInjectError::PlayerFolded(b).message()
            ==> a == b,
        BlindInjectError::AlreadyRevealed(a).message() == BlindInjectError::AlreadyRevealed(
            b,
        ).message() ==> a == b,
        (BlindFinishError::MissingReveal { player_id: a, seat: s }).message() == (
        BlindFinishError::MissingReveal { player_id: b, seat: s }).message() ==> a == b,
        (BlindFinishError::MissingReveal { player_id: a, seat: s }).message() == (
        BlindFinishError::MissingReveal { player_id: a, seat: t }).message() ==> s == t,
{
    let none = Seq::<char>::empty();
    let p = "showdown reveal rejected: player "@;
    let f = " has folded (folded cards stay sealed)"@;
    let g = " is already revealed with different cards"@;
    let u = "showdown reveal rejected: no seat with player id "@;
    if BlindInjectError::UnknownPlayer(a).message() == BlindInjectError::UnknownPlayer(
        b,
    ).message() {
        assert(u + a.tag() + none =~= u + a.tag());
        assert(u + b.tag() + none =~= u + b.tag());
        text::lemma_same_part(u, a.tag(), b.tag(), none);
        player::law_tags_differ(a, b);
    }
    if BlindInjectError::PlayerFolded(a).message() == BlindInjectError::PlayerFolded(b).message() {
        text::lemma_same_part(p, a.tag(), b.tag(), f);
        player::law_tags_differ(a, b);
    }
    if BlindInjectError::AlreadyRevealed(a).message() == BlindInjectError::AlreadyRevealed(
        b,
    ).message() {
        text::lemma_same_part(p, a.tag(), b.tag(), g);
        player::law_tags_differ(a, b);
    }
    let h = "blind showdown: non-folded contender (player "@;
    let mid = ", seat "@;
    let end = ") has no injected reveal"@;
    let x = text::decimal_chars(s as nat);
    let y = text::decimal_chars(t as nat);
    if (BlindFinishError::MissingReveal { player_id: a, seat: s }).message() == (
    BlindFinishError::MissingReveal { player_id: b, seat: s }).message() {
        let tail = mid + x + end;
        assert(h + a.tag() + tail =~= h + a.tag() + mid + x + end);
        assert(h + b.tag() + tail =~= h + b.tag() + mid + x + end);
        text::lemma_same_part(h, a.tag(), b.tag(), tail);
        player::law_tags_differ(a, b);
    }
    if (BlindFinishError::MissingReveal { player_id: a, seat: s }).message() == (
    BlindFinishError::MissingReveal { player_id: a, seat: t }).message() {
        text::lemma_same_part(h + a.tag() + mid, x, y, end);
        text::law_decimal_reads_back(s as nat);
        text::law_decimal_reads_back(t as nat);
    }
}

} // verus!
