//! Streets, hole cards and the board.

use crate::card::Card;
use vstd::prelude::*;

verus! {

/// A betting round of a hand.
#[derive(Debug, Clone, Copy, PartialEq, Eq, Structural, Hash)]
pub enum Street {
    /// Hole cards dealt, no community cards.
    Preflop,
    /// Three community cards.
    Flop,
    /// The fourth community card.
    Turn,
    /// The fifth community card.
    River,
}

impl Street {
    /// The street's name.
    pub open spec fn label(self) -> &'static str {
        match self {
            Street::Preflop => "preflop",
            Street::Flop => "flop",
            Street::Turn => "turn",
            Street::River => "river",
        }
    }

    /// The street's place in the hand, from zero.
    pub open spec fn order(self) -> int {
        match self {
            Street::Preflop => 0,
            Street::Flop => 1,
            Street::Turn => 2,
            Street::River => 3,
        }
    }

    /// The street's name in lower case.
    pub fn to_string(&self) -> (s: String)
        ensures
            s@ == self.label()@,
    {
        match self {
            Street::Preflop => String::from_str("preflop"),
            Street::Flop => String::from_str("flop"),
            Street::Turn => String::from_str("turn"),
            Street::River => String::from_str("river"),
        }
    }
}

/// A player's two hole cards.
#[derive(Debug, Clone, Copy, PartialEq, Eq, Structural)]
pub struct HoleCards {
    pub card1: Card,
    pub card2: Card,
}

impl HoleCards {
    pub fn new(card1: Card, card2: Card) -> (h: Self)
        ensures
            h == (HoleCards { card1, card2 }),
    {
        HoleCards { card1, card2 }
    }

    /// The two cards in order.
    pub open spec fn cards(self) -> Seq<Card> {
        seq![self.card1, self.card2]
    }

    /// The two cards as an array.
    pub fn as_array(&self) -> (a: [Card; 2])
        ensures
            a@ == self.cards(),
    {
        let a = [self.card1, self.card2];
        assert(a@ =~= self.cards());
        a
    }
}

/// The community cards, street by street.
#[derive(Debug, Clone, Copy, PartialEq, Eq)]
pub struct BoardCards {
    /// The three cards of the flop, once dealt.
    pub flop: Option<[Card; 3]>,
    /// The turn card, once dealt.
    pub turn: Option<Card>,
    /// The river card, once dealt.
    pub river: Option<Card>,
}

/// The community cards as a mathematical value.
#[verifier::ext_equal]
pub struct BoardModel {
    pub flop: Option<Seq<Card>>,
    pub turn: Option<Card>,
    pub river: Option<Card>,
}

impl BoardModel {
    /// A board with no card on it.
    pub open spec fn empty() -> BoardModel {
        BoardModel { flop: None, turn: None, river: None }
    }

    /// The cards on the board in the order of the streets.
    pub open spec fn cards(self) -> Seq<Card> {
        (match self.flop {
            Some(f) => f,
            None => Seq::<Card>::empty(),
        }) + (match self.turn {
            Some(c) => seq![c],
            None => Seq::<Card>::empty(),
        }) + (match self.river {
            Some(c) => seq![c],
            None => Seq::<Card>::empty(),
        })
    }

    /// Only a flop of three cards can be on the board.
    pub open spec fn wf(self) -> bool {
        self.flop matches Some(f) ==> f.len() == 3
    }
}

impl View for BoardCards {
    type V = BoardModel;

    open spec fn view(&self) -> BoardModel {
        BoardModel {
            flop: match self.flop {
                Some(f) => Some(f@),
                None => None,
            },
            turn: self.turn,
            river: self.river,
        }
    }
}

impl Default for BoardCards {
    fn default() -> (b: Self)
        ensures
            b@ == BoardModel::empty(),
    {
        BoardCards::empty()
    }
}

impl BoardCards {
    /// A board with no card on it.
    pub fn empty() -> (b: Self)
        ensures
            b@ == BoardModel::empty(),
    {
        BoardCards { flop: None, turn: None, river: None }
    }

    /// How many cards are on the board.
    pub fn count(&self) -> (n: usize)
        ensures
            n == self@.cards().len(),
            n <= 5,
    {
        let flop: usize = if self.flop.is_some() {
            3
        } else {
            0
        };
        let turn: usize = if self.turn.is_some() {
            1
        } else {
            0
        };
        let river: usize = if self.river.is_some() {
            1
        } else {
            0
        };
        flop + turn + river
    }

    /// The cards on the board in the order of the streets.
    pub fn all_cards(&self) -> (v: Vec<Card>)
        ensures
            v@ == self@.cards(),
            v@.len() <= 5,
    {
        let mut v: Vec<Card> = Vec::new();
        if let Some(flop) = self.flop {
            v.push(flop[0]);
            v.push(flop[1]);
            v.push(flop[2]);
            assert(v@ =~= flop@);
        }
        if let Some(turn) = self.turn {
            v.push(turn);
        }
        if let Some(river) = self.river {
            v.push(river);
        }
        assert(v@ =~= self@.cards());
        v
    }
}

} // verus!
