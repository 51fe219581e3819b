//! Hand ranks.
//!
//! The strength of a set of cards comes from `rs_poker`. No type of that crate
//! appears in a public signature. This module names the results, orders the
//! players by them, and describes a hand in words.

use crate::card::{Card, Rank, Suit};
use crate::hand::{BoardCards, BoardModel, HoleCards};
use crate::player::PlayerId;
use crate::seqs;
use crate::telling;
use crate::text::same_text;
use vstd::prelude::*;

verus! {

/// A hand category, weakest first, with the strength inside the category.
#[derive(Debug, Clone, Copy, PartialEq, Eq, Structural, Ord)]
pub enum HandRank {
    HighCard(u32),
    OnePair(u32),
    TwoPair(u32),
    ThreeOfAKind(u32),
    Straight(u32),
    Flush(u32),
    FullHouse(u32),
    FourOfAKind(u32),
    StraightFlush(u32),
}

impl HandRank {
    /// The category's place, weakest first.
    pub open spec fn category(self) -> int {
        match self {
            HandRank::HighCard(_) => 0,
            HandRank::OnePair(_) => 1,
            HandRank::TwoPair(_) => 2,
            HandRank::ThreeOfAKind(_) => 3,
            HandRank::Straight(_) => 4,
            HandRank::Flush(_) => 5,
            HandRank::FullHouse(_) => 6,
            HandRank::FourOfAKind(_) => 7,
            HandRank::StraightFlush(_) => 8,
        }
    }

    /// The strength inside the category.
    pub open spec fn strength(self) -> int {
        match self {
            HandRank::HighCard(v) => v as int,
            HandRank::OnePair(v) => v as int,
            HandRank::TwoPair(v) => v as int,
            HandRank::ThreeOfAKind(v) => v as int,
            HandRank::Straight(v) => v as int,
            HandRank::Flush(v) => v as int,
            HandRank::FullHouse(v) => v as int,
            HandRank::FourOfAKind(v) => v as int,
            HandRank::StraightFlush(v) => v as int,
        }
    }

    /// Whether this rank loses to `other`.
    pub open spec fn loses_to(self, other: HandRank) -> bool {
        self.category() < other.category() || (self.category() == other.category()
            && self.strength() < other.strength())
    }

    /// The name of the category.
    pub open spec fn label(self) -> &'static str {
        match self {
            HandRank::HighCard(_) => "high_card",
            HandRank::OnePair(_) => "one_pair",
            HandRank::TwoPair(_) => "two_pair",
            HandRank::ThreeOfAKind(_) => "three_of_a_kind",
            HandRank::Straight(_) => "straight",
            HandRank::Flush(_) => "flush",
            HandRank::FullHouse(_) => "full_house",
            HandRank::FourOfAKind(_) => "four_of_a_kind",
            HandRank::StraightFlush(_) => "straight_flush",
        }
    }

    /// The name of the category in lower case.
    pub fn name(&self) -> (s: &'static str)
        ensures
            s@ == self.label()@,
    {
        match self {
            HandRank::HighCard(_) => "high_card",
            HandRank::OnePair(_) => "one_pair",
            HandRank::TwoPair(_) => "two_pair",
            HandRank::ThreeOfAKind(_) => "three_of_a_kind",
            HandRank::Straight(_) => "straight",
            HandRank::Flush(_) => "flush",
            HandRank::FullHouse(_) => "full_house",
            HandRank::FourOfAKind(_) => "four_of_a_kind",
            HandRank::StraightFlush(_) => "straight_flush",
        }
    }

    /// The rank with a category's name and a strength; `None` where no category
    /// has that name.
    pub fn from_name(name: &str, strength: u32) -> (r: Option<HandRank>)
        ensures
            r == rank_named(name@, strength),
    {
        if same_text(name, "high_card") {
            Some(HandRank::HighCard(strength))
        } else if same_text(name, "one_pair") {
            Some(HandRank::OnePair(strength))
        } else if same_text(name, "two_pair") {
            Some(HandRank::TwoPair(strength))
        } else if same_text(name, "three_of_a_kind") {
            Some(HandRank::ThreeOfAKind(strength))
        } else if same_text(name, "straight") {
            Some(HandRank::Straight(strength))
        } else if same_text(name, "flush") {
            Some(HandRank::Flush(strength))
        } else if same_text(name, "full_house") {
            Some(HandRank::FullHouse(strength))
        } else if same_text(name, "four_of_a_kind") {
            Some(HandRank::FourOfAKind(strength))
        } else if same_text(name, "straight_flush") {
            Some(HandRank::StraightFlush(strength))
        } else {
            None
        }
    }

    /// The category and the strength as numbers.
    fn parts(&self) -> (r: (u8, u32))
        ensures
            r.0 == self.category(),
            r.1 == self.strength(),
    {
        match *self {
            HandRank::HighCard(v) => (0, v),
            HandRank::OnePair(v) => (1, v),
            HandRank::TwoPair(v) => (2, v),
            HandRank::ThreeOfAKind(v) => (3, v),
            HandRank::Straight(v) => (4, v),
            HandRank::Flush(v) => (5, v),
            HandRank::FullHouse(v) => (6, v),
            HandRank::FourOfAKind(v) => (7, v),
            HandRank::StraightFlush(v) => (8, v),
        }
    }
}

/// The rank with a category's name and a strength.
pub open spec fn rank_named(name: Seq<char>, strength: u32) -> Option<HandRank> {
    if name == "high_card"@ {
        Some(HandRank::HighCard(strength))
    } else if name == "one_pair"@ {
        Some(HandRank::OnePair(strength))
    } else if name == "two_pair"@ {
        Some(HandRank::TwoPair(strength))
    } else if name == "three_of_a_kind"@ {
        Some(HandRank::ThreeOfAKind(strength))
    } else if name == "straight"@ {
        Some(HandRank::Straight(strength))
    } else if name == "flush"@ {
        Some(HandRank::Flush(strength))
    } else if name == "full_house"@ {
        Some(HandRank::FullHouse(strength))
    } else if name == "four_of_a_kind"@ {
        Some(HandRank::FourOfAKind(strength))
    } else if name == "straight_flush"@ {
        Some(HandRank::StraightFlush(strength))
    } else {
        None
    }
}

/// The name and the strength of a rank give it back.
pub proof fn law_rank_name_round_trip(rank: HandRank)
    ensures
        rank_named(rank.label()@, rank.strength() as u32) == Some(rank),
{
    reveal_strlit("high_card");
    reveal_strlit("one_pair");
    reveal_strlit("two_pair");
    reveal_strlit("three_of_a_kind");
    reveal_strlit("straight");
    reveal_strlit("flush");
    reveal_strlit("full_house");
    reveal_strlit("four_of_a_kind");
    reveal_strlit("straight_flush");
    assert("high_card"@.len() == 9);
    assert("one_pair"@.len() == 8);
    assert("two_pair"@.len() == 8);
    assert("three_of_a_kind"@.len() == 15);
    assert("straight"@.len() == 8);
    assert("flush"@.len() == 5);
    assert("full_house"@.len() == 10);
    assert("four_of_a_kind"@.len() == 14);
    assert("straight_flush"@.len() == 14);
    // Names of the same length differ in a letter.
    assert("one_pair"@[0] != "two_pair"@[0] && "one_pair"@[0] != "straight"@[0]);
    assert("two_pair"@[0] != "straight"@[0]);
    assert("four_of_a_kind"@[0] != "straight_flush"@[0]);
}

impl PartialOrd for HandRank {
    fn partial_cmp(&self, other: &Self) -> (r: Option<core::cmp::Ordering>) {
        let a = self.parts();
        let b = other.parts();
        if a.0 < b.0 || (a.0 == b.0 && a.1 < b.1) {
            Some(core::cmp::Ordering::Less)
        } else if b.0 < a.0 || (a.0 == b.0 && b.1 < a.1) {
            Some(core::cmp::Ordering::Greater)
        } else {
            Some(core::cmp::Ordering::Equal)
        }
    }
}

impl vstd::std_specs::cmp::PartialOrdSpecImpl for HandRank {
    open spec fn obeys_partial_cmp_spec() -> bool {
        true
    }

    open spec fn partial_cmp_spec(&self, other: &Self) -> Option<core::cmp::Ordering> {
        if self.loses_to(*other) {
            Some(core::cmp::Ordering::Less)
        } else if other.loses_to(*self) {
            Some(core::cmp::Ordering::Greater)
        } else {
            Some(core::cmp::Ordering::Equal)
        }
    }
}

/// A set of cards of `rs_poker`.
#[verifier::external_type_specification]
#[verifier::external_body]
pub struct ExHand(rs_poker::core::Hand);

/// The cards that a `Hand` holds, by their numbers in `rs_poker`.
pub uninterp spec fn held(hand: rs_poker::core::Hand) -> Set<u8>;

/// The rank that `rs_poker` gives to a set of cards, by their numbers.
pub uninterp spec fn rank_of_codes(codes: Set<u8>) -> HandRank;

/// `Hand::new` of `rs_poker`: a hand without cards.
#[verifier::external_body]
fn empty_hand() -> (h: rs_poker::core::Hand)
    ensures
        held(h) == Set::<u8>::empty(),
{
    rs_poker::core::Hand::new()
}

/// `Hand::new_with_cards` of `rs_poker`: the hand that holds the given cards. A
/// card given twice is held once.
#[verifier::external_body]
fn hand_of(codes: &Vec<u8>) -> (h: rs_poker::core::Hand)
    requires
        forall|i: int| 0 <= i < codes@.len() ==> #[trigger] codes@[i] < 52,
    ensures
        held(h) == codes@.to_set(),
{
    rs_poker::core::Hand::new_with_cards(codes.iter().map(|c| rs_poker::core::Card::from(*c)).collect())
}

/// `Hand::insert` of `rs_poker`: adds a card.
#[verifier::external_body]
fn add_card(hand: &mut rs_poker::core::Hand, code: u8)
    requires
        code < 52,
    ensures
        held(*final(hand)) == held(*old(hand)).insert(code),
{
    hand.insert(rs_poker::core::Card::from(code));
}

/// `Rankable::rank` of `rs_poker` for a `Hand`: the best rank that the cards
/// make. It depends on which cards are held alone. Cards that are four of a kind
/// or two pairs and leave no kicker are left out: looking for the highest of no
/// kickers overflows. The category fits the cards: a pair is there where a pair
/// is claimed, and so on.
#[verifier::external_body]
fn rank_held(hand: &rs_poker::core::Hand) -> (r: HandRank)
    requires
        bare_rank(held(*hand)) is None,
    ensures
        r == rank_of_codes(held(*hand)),
        category_fits(held(*hand), r),
{
    match rs_poker::core::Rankable::rank(hand) {
        rs_poker::core::Rank::HighCard(v) => HandRank::HighCard(v),
        rs_poker::core::Rank::OnePair(v) => HandRank::OnePair(v),
        rs_poker::core::Rank::TwoPair(v) => HandRank::TwoPair(v),
        rs_poker::core::Rank::ThreeOfAKind(v) => HandRank::ThreeOfAKind(v),
        rs_poker::core::Rank::Straight(v) => HandRank::Straight(v),
        rs_poker::core::Rank::Flush(v) => HandRank::Flush(v),
        rs_poker::core::Rank::FullHouse(v) => HandRank::FullHouse(v),
        rs_poker::core::Rank::FourOfAKind(v) => HandRank::FourOfAKind(v),
        rs_poker::core::Rank::StraightFlush(v) => HandRank::StraightFlush(v),
    }
}

/// The number of a card in `rs_poker`: its suits come in the order spades,
/// clubs, hearts, diamonds, each with its thirteen ranks in ascending order.
pub open spec fn code_of(card: Card) -> u8 {
    (suit_base(card.suit) + card.rank.order()) as u8
}

/// The number of the two of a suit in `rs_poker`.
pub open spec fn suit_base(suit: Suit) -> int {
    match suit {
        Suit::Spades => 0,
        Suit::Clubs => 13,
        Suit::Hearts => 26,
        Suit::Diamonds => 39,
    }
}

/// The numbers of a list of cards.
pub open spec fn codes_of(cards: Seq<Card>) -> Seq<u8> {
    Seq::new(cards.len(), |i: int| code_of(cards[i]))
}

/// In how many suits the rank at place `v` occurs among `codes`.
pub open spec fn copies(codes: Set<u8>, v: int) -> int {
    one_if(codes.contains(v as u8)) + one_if(codes.contains((v + 13) as u8)) + one_if(
        codes.contains((v + 26) as u8),
    ) + one_if(codes.contains((v + 39) as u8))
}

pub open spec fn one_if(b: bool) -> int {
    if b {
        1
    } else {
        0
    }
}

/// How many ranks below place `i` occur in exactly `k` suits.
pub open spec fn ranks_seen(codes: Set<u8>, k: int, i: int) -> int
    decreases i,
{
    if i <= 0 {
        0
    } else {
        ranks_seen(codes, k, i - 1) + one_if(copies(codes, i - 1) == k)
    }
}

/// How many ranks below place `i` occur among `codes` in the suit whose numbers
/// begin at `base`.
pub open spec fn suit_seen(codes: Set<u8>, base: int, i: int) -> int
    decreases i,
{
    if i <= 0 {
        0
    } else {
        suit_seen(codes, base, i - 1) + one_if(codes.contains((base + i - 1) as u8))
    }
}

/// Whether `present` holds for five ranks in a row; the ace may stand below the two.
pub open spec fn has_run(present: spec_fn(int) -> bool) -> bool {
    ||| exists|high: int| 4 <= high <= 12 && #[trigger] row_ends_at(present, high)
    ||| present(12) && present(0) && present(1) && present(2) && present(3)
}

/// Whether `present` holds for the five ranks that end at place `high`.
pub open spec fn row_ends_at(present: spec_fn(int) -> bool, high: int) -> bool {
    present(high) && present(high - 1) && present(high - 2) && present(high - 3) && present(
        high - 4,
    )
}

/// The test for a place whose rank occurs among `codes`.
pub open spec fn rank_there(codes: Set<u8>) -> spec_fn(int) -> bool {
    |v: int| copies(codes, v) > 0
}

/// The test for a place whose rank occurs in the suit whose numbers begin at `base`.
pub open spec fn rank_there_in_suit(codes: Set<u8>, base: int) -> spec_fn(int) -> bool {
    |v: int| codes.contains((base + v) as u8)
}

/// Whether the cards can make the category of `r`: the pairs, the suit or the
/// row that it takes are there.
pub open spec fn category_fits(codes: Set<u8>, r: HandRank) -> bool {
    match r {
        HandRank::HighCard(_) => true,
        HandRank::OnePair(_) => ranks_seen(codes, 2, 13) >= 1,
        HandRank::TwoPair(_) => ranks_seen(codes, 2, 13) >= 2,
        HandRank::ThreeOfAKind(_) => ranks_seen(codes, 3, 13) >= 1,
        HandRank::Straight(_) => has_run(rank_there(codes)),
        HandRank::Flush(_) => exists|suit: Suit| #[trigger]
            suit_seen(codes, suit_base(suit), 13) >= 5,
        HandRank::FullHouse(_) => ranks_seen(codes, 3, 13) >= 2 || (ranks_seen(codes, 3, 13) >= 1
            && ranks_seen(codes, 2, 13) >= 1),
        HandRank::FourOfAKind(_) => ranks_seen(codes, 4, 13) >= 1,
        HandRank::StraightFlush(_) => exists|suit: Suit| #[trigger]
            suit_seen(codes, suit_base(suit), 13) >= 5 && has_run(
                rank_there_in_suit(codes, suit_base(suit)),
            ),
    }
}

/// Two to the power of `n`.
pub open spec fn two_to(n: int) -> int
    decreases n,
{
    if n <= 0 {
        1
    } else {
        2 * two_to(n - 1)
    }
}

/// The ranks below place `i` that occur in exactly `k` suits, as a bit set.
pub open spec fn rank_bits(codes: Set<u8>, k: int, i: int) -> int
    decreases i,
{
    if i <= 0 {
        0
    } else {
        rank_bits(codes, k, i - 1) + if copies(codes, i - 1) == k {
            two_to(i - 1)
        } else {
            0
        }
    }
}

/// The strength of cards that leave no kicker: the bits of the ranks above
/// thirteen bits for a kicker, and the highest bit set for want of one.
pub open spec fn bare_strength(bits: int) -> u32 {
    (bits * 8192 + 0x8000_0000) as u32
}

/// The rank of cards that are four of a kind, or two pairs, and nothing else.
pub open spec fn bare_rank(codes: Set<u8>) -> Option<HandRank> {
    let none = ranks_seen(codes, 0, 13);
    if ranks_seen(codes, 4, 13) > 0 && none + ranks_seen(codes, 4, 13) == 13 {
        Some(HandRank::FourOfAKind(bare_strength(rank_bits(codes, 4, 13))))
    } else if ranks_seen(codes, 2, 13) == 2 && none == 11 {
        Some(HandRank::TwoPair(bare_strength(rank_bits(codes, 2, 13))))
    } else {
        None
    }
}

/// The rank of the best hand that `cards` make. Where they are four of a kind
/// or two pairs and leave no kicker, it is the bare one.
pub open spec fn rank_of_cards(cards: Seq<Card>) -> HandRank {
    let codes = codes_of(cards).to_set();
    match bare_rank(codes) {
        Some(r) => r,
        None => rank_of_codes(codes),
    }
}

/// The rank of two hole cards with a board.
pub open spec fn rank_on_board(hole: HoleCards, board: BoardModel) -> HandRank {
    rank_of_cards(hole.cards() + board.cards())
}

/// Different cards have different numbers.
pub proof fn law_cards_have_their_own_numbers(a: Card, b: Card)
    ensures
        code_of(a) < 52,
        code_of(a) == code_of(b) ==> a == b,
{
}

/// The cards of one suit are numbered in ascending order of their ranks, without
/// a gap, and suits do not mix.
pub proof fn law_numbers_follow_ranks_and_suits(a: Card, b: Card)
    ensures
        a.suit == b.suit ==> code_of(a) - code_of(b) == a.rank.order() - b.rank.order(),
        a.suit == b.suit <==> code_of(a) as int / 13 == code_of(b) as int / 13,
        a.rank == b.rank <==> code_of(a) as int % 13 == code_of(b) as int % 13,
{
}

/// A stronger category beats a weaker one whatever the strengths inside them,
/// in the order high card, pair, two pair, three of a kind, straight, flush,
/// full house, four of a kind, straight flush; and inside a category the
/// greater strength wins.
pub proof fn law_categories_in_order(a: u32, b: u32)
    ensures
        HandRank::HighCard(a).loses_to(HandRank::OnePair(b)),
        HandRank::OnePair(a).loses_to(HandRank::TwoPair(b)),
        HandRank::TwoPair(a).loses_to(HandRank::ThreeOfAKind(b)),
        HandRank::ThreeOfAKind(a).loses_to(HandRank::Straight(b)),
        HandRank::Straight(a).loses_to(HandRank::Flush(b)),
        HandRank::Flush(a).loses_to(HandRank::FullHouse(b)),
        HandRank::FullHouse(a).loses_to(HandRank::FourOfAKind(b)),
        HandRank::FourOfAKind(a).loses_to(HandRank::StraightFlush(b)),
        HandRank::HighCard(a).loses_to(HandRank::HighCard(b)) == (a < b),
        HandRank::OnePair(a).loses_to(HandRank::OnePair(b)) == (a < b),
        HandRank::TwoPair(a).loses_to(HandRank::TwoPair(b)) == (a < b),
        HandRank::ThreeOfAKind(a).loses_to(HandRank::ThreeOfAKind(b)) == (a < b),
        HandRank::Straight(a).loses_to(HandRank::Straight(b)) == (a < b),
        HandRank::Flush(a).loses_to(HandRank::Flush(b)) == (a < b),
        HandRank::FullHouse(a).loses_to(HandRank::FullHouse(b)) == (a < b),
        HandRank::FourOfAKind(a).loses_to(HandRank::FourOfAKind(b)) == (a < b),
        HandRank::StraightFlush(a).loses_to(HandRank::StraightFlush(b)) == (a < b),
{
}

/// Ranks are in a line: a rank does not lose to itself, of two different ranks
/// exactly one loses, and what loses to a loser loses.
pub proof fn law_ranks_are_in_a_line(a: HandRank, b: HandRank, c: HandRank)
    ensures
        !a.loses_to(a),
        a != b ==> (a.loses_to(b) <==> !b.loses_to(a)),
        a.loses_to(b) && b.loses_to(c) ==> a.loses_to(c),
{
}

/// The place of the rank of a card's number.
pub open spec fn place_of(code: u8) -> int {
    code as int % 13
}

/// As many ranks as there are below `i`, each occurs in some number of suits.
proof fn lemma_ranks_partition(codes: Set<u8>, i: int)
    requires
        0 <= i <= 13,
    ensures
        ranks_seen(codes, 0, i) + ranks_seen(codes, 1, i) + ranks_seen(codes, 2, i) + ranks_seen(
            codes,
            3,
            i,
        ) + ranks_seen(codes, 4, i) == i,
        ranks_seen(codes, 0, i) >= 0,
        ranks_seen(codes, 1, i) >= 0,
        ranks_seen(codes, 2, i) >= 0,
        ranks_seen(codes, 3, i) >= 0,
        ranks_seen(codes, 4, i) >= 0,
    decreases i,
{
    if i > 0 {
        lemma_ranks_partition(codes, i - 1);
    }
}

/// The numbers in `codes` whose ranks are below place `i`.
pub open spec fn codes_below(codes: Set<u8>, i: int) -> Set<u8> {
    codes.filter(|c: u8| c < 52 && place_of(c) < i)
}

/// The cards are those of the ranks that occur once, twice, three and four times.
proof fn lemma_count_by_copies(codes: Set<u8>, i: int)
    requires
        0 <= i <= 13,
        codes.finite(),
    ensures
        codes_below(codes, i).finite(),
        codes_below(codes, i).len() == ranks_seen(codes, 1, i) + 2 * ranks_seen(codes, 2, i) + 3
            * ranks_seen(codes, 3, i) + 4 * ranks_seen(codes, 4, i),
    decreases i,
{
    if i == 0 {
        assert(codes_below(codes, i) =~= Set::<u8>::empty());
    } else {
        lemma_count_by_copies(codes, i - 1);
        let v = i - 1;
        let s0 = codes_below(codes, i - 1);
        let a = v as u8;
        let b = (v + 13) as u8;
        let c = (v + 26) as u8;
        let d = (v + 39) as u8;
        let s1 = if codes.contains(a) {
            s0.insert(a)
        } else {
            s0
        };
        let s2 = if codes.contains(b) {
            s1.insert(b)
        } else {
            s1
        };
        let s3 = if codes.contains(c) {
            s2.insert(c)
        } else {
            s2
        };
        let s4 = if codes.contains(d) {
            s3.insert(d)
        } else {
            s3
        };
        assert(s1.len() == s0.len() + one_if(codes.contains(a)));
        assert(s2.len() == s1.len() + one_if(codes.contains(b)));
        assert(s3.len() == s2.len() + one_if(codes.contains(c)));
        assert(s4.len() == s3.len() + one_if(codes.contains(d)));
        assert forall|x: u8| codes_below(codes, i).contains(x) == s4.contains(x) by {
            if x < 52 && place_of(x) == v {
                assert(x == a || x == b || x == c || x == d);
            }
        }
        assert(codes_below(codes, i) =~= s4);
    }
}

/// The set of the numbers of `cards`.
pub open spec fn code_set(cards: Seq<Card>) -> Set<u8> {
    codes_of(cards).to_set()
}

proof fn lemma_code_set(cards: Seq<Card>)
    ensures
        code_set(cards).finite(),
        code_set(cards).len() == ranks_seen(code_set(cards), 1, 13) + 2 * ranks_seen(
            code_set(cards),
            2,
            13,
        ) + 3 * ranks_seen(code_set(cards), 3, 13) + 4 * ranks_seen(code_set(cards), 4, 13),
{
    let codes = code_set(cards);
    seqs::lemma_to_set_finite(codes_of(cards));
    lemma_count_by_copies(codes, 13);
    assert(codes_below(codes, 13) =~= codes) by {
        assert forall|x: u8| codes.contains(x) implies codes_below(codes, 13).contains(x) by {
            let k = choose|k: int| 0 <= k < codes_of(cards).len() && codes_of(cards)[k] == x;
            law_cards_have_their_own_numbers(cards[k], cards[k]);
        }
    }
}

/// The cards are ranked by `rs_poker`, whatever they are, unless they are just
/// four cards, or eight or more. So are four cards one of which has a rank of its own.
pub proof fn law_full_hands_are_ranked_by_their_best_five(cards: Seq<Card>)
    requires
        code_set(cards).len() < 8,
        code_set(cards).len() != 4 || exists|i: int|
            0 <= i < cards.len() && forall|j: int|
                0 <= j < cards.len() && cards[j] != #[trigger] cards[i] ==> (
                #[trigger] cards[j]).rank != cards[i].rank,
    ensures
        rank_of_cards(cards) == rank_of_codes(code_set(cards)),
{
    let codes = code_set(cards);
    lemma_code_set(cards);
    lemma_ranks_partition(codes, 13);
    if bare_rank(codes) is Some {
        assert(codes.len() == 4);
        let i = choose|i: int|
            0 <= i < cards.len() && forall|j: int|
                0 <= j < cards.len() && cards[j] != #[trigger] cards[i] ==> (
                #[trigger] cards[j]).rank != cards[i].rank;
        lemma_rank_of_its_own(cards, i);
        lemma_seen_once(codes, cards[i].rank.order(), 13);
    }
}

/// A rank that occurs in one suit counts among the ranks that do.
proof fn lemma_seen_once(codes: Set<u8>, v: int, i: int)
    requires
        0 <= v < i <= 13,
        copies(codes, v) == 1,
    ensures
        ranks_seen(codes, 1, i) >= 1,
    decreases i,
{
    lemma_ranks_partition(codes, i - 1);
    if v < i - 1 {
        lemma_seen_once(codes, v, i - 1);
    }
}

proof fn lemma_rank_of_its_own(cards: Seq<Card>, i: int)
    requires
        0 <= i < cards.len(),
        forall|j: int|
            0 <= j < cards.len() && cards[j] != cards[i] ==> (#[trigger] cards[j]).rank
                != cards[i].rank,
    ensures
        copies(code_set(cards), cards[i].rank.order()) == 1,
{
    let codes = code_set(cards);
    let r = cards[i].rank;
    assert(codes_of(cards)[i] == code_of(cards[i]));
    assert(codes.contains(code_of(cards[i])));
    assert forall|s: Suit| #[trigger] codes.contains(code_of(Card { rank: r, suit: s })) implies s
        == cards[i].suit by {
        let c = Card { rank: r, suit: s };
        let k = choose|k: int| 0 <= k < codes_of(cards).len() && codes_of(cards)[k] == code_of(c);
        law_cards_have_their_own_numbers(cards[k], c);
        assert(cards[k] == c);
    }
    let v = r.order();
    assert(code_of(Card { rank: r, suit: Suit::Spades }) == v as u8);
    assert(code_of(Card { rank: r, suit: Suit::Clubs }) == (v + 13) as u8);
    assert(code_of(Card { rank: r, suit: Suit::Hearts }) == (v + 26) as u8);
    assert(code_of(Card { rank: r, suit: Suit::Diamonds }) == (v + 39) as u8);
}

/// Five cards or more that all differ, up to seven, have the rank that
/// `rs_poker` gives to them: two players whose cards it tells apart are told apart.
pub proof fn law_five_or_more_cards_have_their_best_rank(hole: HoleCards, board: BoardModel)
    requires
        seqs::distinct(hole.cards() + board.cards()),
        5 <= (hole.cards() + board.cards()).len() < 8,
    ensures
        rank_on_board(hole, board) == rank_of_codes(code_set(hole.cards() + board.cards())),
{
    let cards = hole.cards() + board.cards();
    let codes = codes_of(cards);
    assert forall|i: int, j: int| #![trigger codes[i], codes[j]] 0 <= i < j < codes.len(
    ) implies codes[i] != codes[j] by {
        law_cards_have_their_own_numbers(cards[i], cards[j]);
        assert(cards[i] != cards[j]);
    }
    assert(codes.no_duplicates());
    codes.unique_seq_to_set();
    law_full_hands_are_ranked_by_their_best_five(cards);
}

/// The order of the cards, and a card given twice, make no difference to the rank.
pub proof fn law_rank_depends_on_the_set_of_cards(a: Seq<Card>, b: Seq<Card>)
    requires
        forall|c: Card| #[trigger] a.contains(c) <==> b.contains(c),
    ensures
        rank_of_cards(a) == rank_of_cards(b),
{
    assert forall|x: u8| code_set(a).contains(x) <==> code_set(b).contains(x) by {
        lemma_same_codes(a, b, x);
        lemma_same_codes(b, a, x);
    }
    assert(code_set(a) =~= code_set(b));
}

proof fn lemma_same_codes(a: Seq<Card>, b: Seq<Card>, x: u8)
    requires
        forall|c: Card| #[trigger] a.contains(c) ==> b.contains(c),
    ensures
        code_set(a).contains(x) ==> code_set(b).contains(x),
{
    if code_set(a).contains(x) {
        let k = choose|k: int| 0 <= k < codes_of(a).len() && codes_of(a)[k] == x;
        assert(a.contains(a[k]));
        let j = choose|j: int| 0 <= j < b.len() && b[j] == a[k];
        assert(codes_of(b)[j] == x);
    }
}

/// Two pairs without a kicker are two pair, four of a kind without one are four
/// of a kind, and the ranks that occur decide between them.
pub proof fn law_bare_hands_rank_by_their_cards(
    high: Rank,
    low: Rank,
    s: (Suit, Suit),
    t: (Suit, Suit),
)
    requires
        low.order() < high.order(),
        s.0 != s.1,
        t.0 != t.1,
    ensures
        ({
            let pairs = seq![
                Card { rank: high, suit: s.0 },
                Card { rank: high, suit: s.1 },
                Card { rank: low, suit: t.0 },
                Card { rank: low, suit: t.1 },
            ];
            let quads = seq![
                Card { rank: high, suit: Suit::Spades },
                Card { rank: high, suit: Suit::Hearts },
                Card { rank: high, suit: Suit::Diamonds },
                Card { rank: high, suit: Suit::Clubs },
            ];
            &&& rank_of_cards(pairs) == HandRank::TwoPair(
                (0x8000_0000 + 8192 * two_to(high.order()) + 8192 * two_to(low.order())) as u32,
            )
            &&& rank_of_cards(quads) == HandRank::FourOfAKind(
                (0x8000_0000 + 8192 * two_to(high.order())) as u32,
            )
        }),
{
    let pairs = seq![
        Card { rank: high, suit: s.0 },
        Card { rank: high, suit: s.1 },
        Card { rank: low, suit: t.0 },
        Card { rank: low, suit: t.1 },
    ];
    let quads = seq![
        Card { rank: high, suit: Suit::Spades },
        Card { rank: high, suit: Suit::Hearts },
        Card { rank: high, suit: Suit::Diamonds },
        Card { rank: high, suit: Suit::Clubs },
    ];
    let h = high.order();
    let l = low.order();
    let a = codes_of(pairs);
    let b = codes_of(quads);
    assert(a[0] == code_of(pairs[0]) && a[1] == code_of(pairs[1]) && a[2] == code_of(pairs[2])
        && a[3] == code_of(pairs[3]));
    assert(b[0] == code_of(quads[0]) && b[1] == code_of(quads[1]) && b[2] == code_of(quads[2])
        && b[3] == code_of(quads[3]));
    assert forall|x: u8| #[trigger] a.to_set().contains(x) <==> (x == a[0] || x == a[1] || x
        == a[2] || x == a[3]) by {
        if a.contains(x) {
            let k = choose|k: int| 0 <= k < a.len() && a[k] == x;
        }
    }
    assert forall|x: u8| #[trigger] b.to_set().contains(x) <==> (x == b[0] || x == b[1] || x
        == b[2] || x == b[3]) by {
        if b.contains(x) {
            let k = choose|k: int| 0 <= k < b.len() && b[k] == x;
        }
    }
    assert forall|v: int| 0 <= v < 13 implies #[trigger] copies(a.to_set(), v) == if v == h || v
        == l {
        2int
    } else {
        0int
    } by {}
    assert forall|v: int| 0 <= v < 13 implies #[trigger] copies(b.to_set(), v) == if v == h {
        4int
    } else {
        0int
    } by {}
    lemma_seen_two(a.to_set(), 2, h, l, 13);
    lemma_seen_two(b.to_set(), 4, h, h, 13);
}

/// What is seen of cards of which the ranks `h` and `l` occur `k` times and no others do.
proof fn lemma_seen_two(codes: Set<u8>, k: int, h: int, l: int, i: int)
    requires
        0 <= i <= 13,
        k == 2 || k == 4,
        0 <= l <= h < 13,
        forall|v: int|
            0 <= v < 13 ==> #[trigger] copies(codes, v) == if v == h || v == l {
                k
            } else {
                0
            },
    ensures
        ranks_seen(codes, k, i) == if l == h {
            one_if(h < i)
        } else {
            one_if(h < i) + one_if(l < i)
        },
        ranks_seen(codes, 6 - k, i) == 0,
        ranks_seen(codes, 0, i) == i - ranks_seen(codes, k, i),
        rank_bits(codes, k, i) == (if h < i {
            two_to(h)
        } else {
            0
        }) + (if l < i && l != h {
            two_to(l)
        } else {
            0
        }),
    decreases i,
{
    if i > 0 {
        lemma_seen_two(codes, k, h, l, i - 1);
        assert(copies(codes, i - 1) == if i - 1 == h || i - 1 == l {
            k
        } else {
            0
        });
    }
}

fn card_code(card: Card) -> (c: u8)
    ensures
        c == code_of(card),
        c < 52,
{
    let base: u8 = match card.suit {
        Suit::Spades => 0,
        Suit::Clubs => 13,
        Suit::Hearts => 26,
        Suit::Diamonds => 39,
    };
    base + card.rank.index() as u8
}

/// The hole cards followed by the board.
fn gather(hole: &HoleCards, board: &BoardCards) -> (v: Vec<Card>)
    ensures
        v@ == hole.cards() + board@.cards(),
        2 <= v@.len() <= 7,
{
    let mut v: Vec<Card> = Vec::new();
    v.push(hole.card1);
    v.push(hole.card2);
    let mut rest = board.all_cards();
    v.append(&mut rest);
    assert(v@ =~= hole.cards() + board@.cards());
    v
}

fn has_card(cards: &Vec<Card>, card: Card) -> (r: bool)
    ensures
        r == codes_of(cards@).to_set().contains(code_of(card)),
{
    let ghost codes = codes_of(cards@);
    let mut i: usize = 0;
    while i < cards.len()
        invariant
            i <= cards@.len(),
            codes == codes_of(cards@),
            forall|k: int| 0 <= k < i ==> codes[k] != code_of(card),
        decreases cards@.len() - i,
    {
        proof {
            law_cards_have_their_own_numbers(cards@[i as int], card);
        }
        if cards[i] == card {
            assert(codes[i as int] == code_of(card));
            return true;
        }
        i = i + 1;
    }
    false
}

/// In how many suits the rank at place `v` occurs.
fn count_copies(cards: &Vec<Card>, v: usize) -> (n: usize)
    requires
        v < 13,
    ensures
        n == copies(codes_of(cards@).to_set(), v as int),
        n <= 4,
{
    let rank = Rank::from_index(v);
    let mut n: usize = 0;
    if has_card(cards, Card::new(rank, Suit::Spades)) {
        n = n + 1;
    }
    if has_card(cards, Card::new(rank, Suit::Clubs)) {
        n = n + 1;
    }
    if has_card(cards, Card::new(rank, Suit::Hearts)) {
        n = n + 1;
    }
    if has_card(cards, Card::new(rank, Suit::Diamonds)) {
        n = n + 1;
    }
    n
}

/// The rank of cards that are four of a kind, or two pairs, and nothing else.
fn rank_bare(cards: &Vec<Card>) -> (r: Option<HandRank>)
    ensures
        r == bare_rank(codes_of(cards@).to_set()),
{
    let ghost codes = codes_of(cards@).to_set();
    let mut none: usize = 0;
    let mut pairs: usize = 0;
    let mut quads: usize = 0;
    let mut pair_bits: u32 = 0;
    let mut quad_bits: u32 = 0;
    let mut bit: u32 = 1;
    let mut v: usize = 0;
    while v < 13
        invariant
            v <= 13,
            codes == codes_of(cards@).to_set(),
            none == ranks_seen(codes, 0, v as int),
            pairs == ranks_seen(codes, 2, v as int),
            quads == ranks_seen(codes, 4, v as int),
            none <= v,
            pairs <= v,
            quads <= v,
            pair_bits == rank_bits(codes, 2, v as int),
            quad_bits == rank_bits(codes, 4, v as int),
            bit == two_to(v as int),
            1 <= bit <= 8192,
            v < 13 ==> bit <= 4096,
            pair_bits < bit,
            quad_bits < bit,
        decreases 13 - v,
    {
        let n: usize = count_copies(cards, v);
        proof {
            assert(two_to(v + 1) == 2 * two_to(v as int));
            lemma_two_to(v + 1);
        }
        if n == 0 {
            none = none + 1;
        } else if n == 2 {
            pairs = pairs + 1;
            pair_bits = pair_bits + bit;
        } else if n == 4 {
            quads = quads + 1;
            quad_bits = quad_bits + bit;
        }
        bit = bit * 2;
        v = v + 1;
    }
    if quads > 0 && none + quads == 13 {
        Some(HandRank::FourOfAKind(quad_bits * 8192 + 0x8000_0000))
    } else if pairs == 2 && none == 11 {
        Some(HandRank::TwoPair(pair_bits * 8192 + 0x8000_0000))
    } else {
        None
    }
}

/// The first powers of two.
proof fn lemma_two_to(n: int)
    requires
        1 <= n <= 13,
    ensures
        two_to(n) <= 8192,
        n <= 12 ==> two_to(n) <= 4096,
{
    reveal_with_fuel(two_to, 14);
}

/// The best rank that two hole cards make with the board. Fewer than five
/// cards in all are ranked as far as they go. A card given twice counts once.
pub fn rank_hand(hole: &HoleCards, board: &BoardCards) -> (r: HandRank)
    ensures
        r == rank_on_board(*hole, board@),
        category_fits(codes_of(hole.cards() + board@.cards()).to_set(), r),
        seqs::distinct(hole.cards() + board@.cards()) && (hole.cards() + board@.cards()).len() >= 5
            ==> r == rank_of_codes(code_set(hole.cards() + board@.cards())),
{
    let cards = gather(hole, board);
    proof {
        if seqs::distinct(cards@) && cards@.len() >= 5 {
            law_five_or_more_cards_have_their_best_rank(*hole, board@);
        }
    }
    if let Some(r) = rank_bare(&cards) {
        return r;
    }
    let mut codes: Vec<u8> = Vec::new();
    let mut i: usize = 0;
    while i < cards.len()
        invariant
            i <= cards@.len(),
            codes@ == codes_of(cards@).take(i as int),
            forall|k: int| 0 <= k < codes@.len() ==> #[trigger] codes@[k] < 52,
        decreases cards@.len() - i,
    {
        codes.push(card_code(cards[i]));
        assert(codes@ =~= codes_of(cards@).take(i + 1));
        i = i + 1;
    }
    assert(codes@ =~= codes_of(cards@));
    rank_held(&hand_of(&codes))
}

/// Whether some card occurs twice.
pub fn has_duplicate_cards(cards: &[Card]) -> (r: bool)
    ensures
        r == !seqs::distinct(cards@),
{
    let mut i: usize = 0;
    while i < cards.len()
        invariant
            i <= cards@.len(),
            forall|a: int, b: int|
                #![trigger cards@[a], cards@[b]]
                0 <= a < b < cards@.len() && a < i ==> cards@[a] != cards@[b],
        decreases cards@.len() - i,
    {
        let mut j: usize = i + 1;
        while j < cards.len()
            invariant
                i < j <= cards@.len(),
                forall|b: int| i < b < j ==> cards@[i as int] != #[trigger] cards@[b],
            decreases cards@.len() - j,
        {
            if cards[i] == cards[j] {
                return true;
            }
            j = j + 1;
        }
        i = i + 1;
    }
    false
}

/// Players with the ranks of their hands.
pub open spec fn rated(players: Seq<(PlayerId, HoleCards)>, board: BoardModel) -> Seq<
    (PlayerId, HandRank),
> {
    Seq::new(players.len(), |i: int| (players[i].0, rank_on_board(players[i].1, board)))
}

/// The better rank comes first.
pub open spec fn stronger() -> spec_fn((PlayerId, HandRank), (PlayerId, HandRank)) -> bool {
    |a: (PlayerId, HandRank), b: (PlayerId, HandRank)| b.1.loses_to(a.1)
}

/// The players with their ranks, best first, equal ranks in the order given.
pub open spec fn ranking(players: Seq<(PlayerId, HoleCards)>, board: BoardModel) -> Seq<
    (PlayerId, HandRank),
> {
    seqs::arranged(rated(players, board), stronger())
}

/// The test for the rank `r`.
pub open spec fn has_rank_of(r: HandRank) -> spec_fn((PlayerId, HandRank)) -> bool {
    |p: (PlayerId, HandRank)| p.1 == r
}

/// The ranking lists the same players with the same ranks, no one behind a
/// weaker hand, and players of one rank in the order in which they were given.
pub proof fn law_ranking_sorted_and_stable(
    players: Seq<(PlayerId, HoleCards)>,
    board: BoardModel,
    r: HandRank,
)
    ensures
        ranking(players, board).len() == players.len(),
        forall|p: (PlayerId, HandRank)|
            ranking(players, board).contains(p) <==> rated(players, board).contains(p),
        forall|i: int, j: int|
            #![trigger ranking(players, board)[i], ranking(players, board)[j]]
            0 <= i < j < players.len() ==> !ranking(players, board)[i].1.loses_to(
                ranking(players, board)[j].1,
            ),
        seqs::pick(
            ranking(players, board),
            has_rank_of(r),
            |p: (PlayerId, HandRank)| p,
        ) == seqs::pick(
            rated(players, board),
            has_rank_of(r),
            |p: (PlayerId, HandRank)| p,
        ),
{
    let s = rated(players, board);
    let t = ranking(players, board);
    lemma_stronger_ranks();
    seqs::lemma_arranged_count(s, stronger(), has_rank_of(r));
    seqs::lemma_arranged_in_order(s, stronger());
    seqs::lemma_arranged_stable(s, stronger(), has_rank_of(r), |p: (PlayerId, HandRank)| p);
    assert forall|p: (PlayerId, HandRank)| t.contains(p) <==> s.contains(p) by {
        seqs::lemma_arranged_contains(s, stronger(), p);
    }
    assert forall|i: int, j: int| #![trigger t[i], t[j]] 0 <= i < j < players.len(
    ) implies !t[i].1.loses_to(
        t[j].1,
    ) by {
        assert(!stronger()(t[j], t[i]));
    }
}

/// `r` ranks the players whose places are `places`: every player once, each with
/// the rank of their own hand on the board, no one behind a weaker hand, and
/// level hands in the order given.
pub open spec fn ranked_at(
    players: Seq<(PlayerId, HoleCards)>,
    board: BoardModel,
    r: Seq<(PlayerId, HandRank)>,
    places: Seq<int>,
) -> bool {
    &&& r.len() == players.len()
    &&& places.len() == players.len()
    &&& forall|i: int|
        0 <= i < places.len() ==> 0 <= #[trigger] places[i] < players.len() && r[i] == (
            players[places[i]].0,
            rank_on_board(players[places[i]].1, board),
        )
    &&& forall|i: int, j: int|
        #![trigger places[i], places[j]]
        0 <= i < j < places.len() ==> places[i] != places[j] && !r[i].1.loses_to(r[j].1) && (
        r[j].1.loses_to(r[i].1) || places[i] < places[j])
}

/// Players are ranked by their own hands on the board, best first, level hands
/// in the order given.
pub proof fn law_players_are_ranked_by_their_hands(
    players: Seq<(PlayerId, HoleCards)>,
    board: BoardModel,
)
    ensures
        exists|places: Seq<int>| #[trigger]
            ranked_at(players, board, ranking(players, board), places),
{
    lemma_stronger_ranks();
    let s = rated(players, board);
    let places = seqs::lemma_arranged_places(s, stronger());
    let r = ranking(players, board);
    assert forall|i: int, j: int|
        #![trigger places[i], places[j]]
        0 <= i < j < places.len() implies places[i] != places[j] && !r[i].1.loses_to(r[j].1) && (
    r[j].1.loses_to(r[i].1) || places[i] < places[j]) by {
        assert(r[i] == s[places[i]] && r[j] == s[places[j]]);
    }
    assert(ranked_at(players, board, r, places));
}

/// Strength is an order in which hands may be level.
pub proof fn lemma_stronger_ranks()
    ensures
        seqs::ranks(stronger()),
{
    assert(seqs::ranks(stronger()));
}

/// A ranking lists as many players as it is made of.
pub proof fn lemma_ranking_len(players: Seq<(PlayerId, HoleCards)>, board: BoardModel)
    ensures
        ranking(players, board).len() == players.len(),
{
    seqs::lemma_arranged_count(
        rated(players, board),
        stronger(),
        has_rank_of(HandRank::HighCard(0)),
    );
}

/// Orders players by their ranks, best first. Equal ranks stay in the order given.
pub fn sort_ranked(ranked: &[(PlayerId, HandRank)]) -> (r: Vec<(PlayerId, HandRank)>)
    ensures
        r@ == seqs::arranged(ranked@, stronger()),
{
    let mut sorted: Vec<(PlayerId, HandRank)> = Vec::new();
    let mut i: usize = 0;
    while i < ranked.len()
        invariant
            i <= ranked@.len(),
            sorted@.len() == i,
            sorted@ == seqs::arranged(ranked@.take(i as int), stronger()),
        decreases ranked@.len() - i,
    {
        let item = ranked[i];
        let mut at: usize = 0;
        let n: usize = sorted.len();
        while at < n && !(sorted[at].1 < item.1)
            invariant
                at <= n,
                n == sorted@.len(),
                forall|j: int|
                    0 <= j < at ==> !seqs::after_item(item, stronger())(#[trigger] sorted@[j]),
            decreases n - at,
        {
            at = at + 1;
        }
        proof {
            seqs::lemma_first_index_is(sorted@, at as int, seqs::after_item(item, stronger()));
            assert(ranked@.take(i + 1).drop_last() =~= ranked@.take(i as int));
            assert(ranked@.take(i + 1).last() == item);
        }
        sorted.insert(at, item);
        i = i + 1;
    }
    assert(ranked@.take(i as int) =~= ranked@);
    sorted
}

/// Orders the players by their hands on the same board, best first. Equal hands
/// stay in the order given.
pub fn rank_players(players: &[(PlayerId, HoleCards)], board: &BoardCards) -> (r: Vec<
    (PlayerId, HandRank),
>)
    ensures
        r@ == ranking(players@, board@),
        exists|places: Seq<int>| #[trigger] ranked_at(players@, board@, r@, places),
{
    proof {
        law_players_are_ranked_by_their_hands(players@, board@);
    }
    let mut ranked: Vec<(PlayerId, HandRank)> = Vec::new();
    let mut i: usize = 0;
    while i < players.len()
        invariant
            i <= players@.len(),
            ranked@ == rated(players@, board@).take(i as int),
        decreases players@.len() - i,
    {
        ranked.push((players[i].0, rank_hand(&players[i].1, board)));
        assert(ranked@ =~= rated(players@, board@).take(i + 1));
        i = i + 1;
    }
    assert(ranked@ =~= rated(players@, board@));
    sort_ranked(ranked.as_slice())
}

/// A board prepared for ranking many pairs of hole cards against it.
#[derive(Clone, Copy)]
pub struct BoardEval {
    hand: rs_poker::core::Hand,
    board: BoardCards,
}

impl BoardEval {
    /// The board that was prepared.
    pub closed spec fn board(&self) -> BoardModel {
        self.board@
    }

    /// The prepared cards are those of the board.
    pub closed spec fn wf(&self) -> bool {
        held(self.hand) == codes_of(self.board@.cards()).to_set()
    }
}

/// Prepares a board.
pub fn board_eval(board: &BoardCards) -> (e: BoardEval)
    ensures
        e.wf(),
        e.board() == board@,
{
    let cards = board.all_cards();
    let mut hand = empty_hand();
    let mut i: usize = 0;
    assert(codes_of(cards@).take(0).to_set() =~= Set::<u8>::empty());
    while i < cards.len()
        invariant
            i <= cards@.len(),
            held(hand) == codes_of(cards@).take(i as int).to_set(),
        decreases cards@.len() - i,
    {
        proof {
            let all = codes_of(cards@);
            lemma_take_to_set(all, i as int);
            assert(all[i as int] == code_of(cards@[i as int]));
        }
        add_card(&mut hand, card_code(cards[i]));
        i = i + 1;
    }
    assert(codes_of(cards@).take(i as int) =~= codes_of(cards@));
    BoardEval { hand, board: *board }
}

/// Taking one more item adds it to the set of what was taken.
pub proof fn lemma_take_to_set(s: Seq<u8>, i: int)
    requires
        0 <= i < s.len(),
    ensures
        s.take(i + 1).to_set() == s.take(i).to_set().insert(s[i]),
{
    let a = s.take(i + 1);
    let b = s.take(i);
    assert forall|x: u8| a.to_set().contains(x) <==> b.to_set().insert(s[i]).contains(x) by {
        if a.contains(x) {
            let k = choose|k: int| 0 <= k < a.len() && a[k] == x;
            if k < i {
                assert(b[k] == x);
            }
        }
        if b.contains(x) {
            let k = choose|k: int| 0 <= k < b.len() && b[k] == x;
            assert(a[k] == x);
        }
        assert(a[i] == s[i]);
    }
    assert(a.to_set() =~= b.to_set().insert(s[i]));
}

/// Ranks two hole cards against a prepared board. It gives what [`rank_hand`]
/// gives for that board.
pub fn rank_with_board(be: &BoardEval, hole: &HoleCards) -> (r: HandRank)
    requires
        be.wf(),
    ensures
        r == rank_on_board(*hole, be.board()),
{
    let cards = gather(hole, &be.board);
    if let Some(r) = rank_bare(&cards) {
        return r;
    }
    proof {
        lemma_prepared(*hole, be.board@);
    }
    let mut hand = be.hand;
    add_card(&mut hand, card_code(hole.card1));
    add_card(&mut hand, card_code(hole.card2));
    rank_held(&hand)
}

/// The numbers of the board and of two hole cards are those of all the cards.
proof fn lemma_prepared(hole: HoleCards, board: BoardModel)
    ensures
        codes_of(board.cards()).to_set().insert(code_of(hole.card1)).insert(code_of(hole.card2))
            == codes_of(hole.cards() + board.cards()).to_set(),
{
    let b = codes_of(board.cards());
    let all = codes_of(hole.cards() + board.cards());
    let set = b.to_set().insert(code_of(hole.card1)).insert(code_of(hole.card2));
    assert forall|x: u8| set.contains(x) <==> all.to_set().contains(x) by {
        assert(all[0] == code_of(hole.card1));
        assert(all[1] == code_of(hole.card2));
        if b.contains(x) {
            let k = choose|k: int| 0 <= k < b.len() && b[k] == x;
            assert(all[k + 2] == x);
        }
        if all.contains(x) {
            let k = choose|k: int| 0 <= k < all.len() && all[k] == x;
            if k >= 2 {
                assert(b[k - 2] == x);
            }
        }
    }
    assert(set =~= all.to_set());
}

/// A hand in words: the ranks that a reader needs to name it in full.
#[derive(Debug, PartialEq, Eq)]
pub struct RankDescription {
    /// The name of the category.
    pub category: String,
    /// The rank that the category is about.
    pub primary: Option<String>,
    /// The lower pair, or the pair of a full house.
    pub secondary: Option<String>,
    /// The best kicker, or the low end of a straight.
    pub kicker: Option<String>,
    /// The ranks that matter, in descending order.
    pub board: Vec<String>,
}

/// A description as a mathematical value.
#[verifier::ext_equal]
pub struct DescriptionModel {
    pub category: Seq<char>,
    pub primary: Option<Seq<char>>,
    pub secondary: Option<Seq<char>>,
    pub kicker: Option<Seq<char>>,
    pub board: Seq<Seq<char>>,
}

/// The text of an optional string.
pub open spec fn text_of(s: Option<String>) -> Option<Seq<char>> {
    match s {
        Some(t) => Some(t@),
        None => None,
    }
}

/// The texts of a list of strings.
pub open spec fn texts_of(s: Seq<String>) -> Seq<Seq<char>> {
    Seq::new(s.len(), |i: int| s[i]@)
}

impl View for RankDescription {
    type V = DescriptionModel;

    open spec fn view(&self) -> DescriptionModel {
        DescriptionModel {
            category: self.category@,
            primary: text_of(self.primary),
            secondary: text_of(self.secondary),
            kicker: text_of(self.kicker),
            board: texts_of(self.board@),
        }
    }
}

impl Clone for RankDescription {
    fn clone(&self) -> (r: Self)
        ensures
            r@ == self@,
    {
        let r = RankDescription {
            category: self.category.clone(),
            primary: self.primary.clone(),
            secondary: self.secondary.clone(),
            kicker: self.kicker.clone(),
            board: self.board.clone(),
        };
        assert(texts_of(r.board@) =~= texts_of(self.board@));
        r
    }
}

impl RankDescription {
    /// A description that gives the category alone.
    pub fn category_only(category: &str) -> (d: Self)
        ensures
            d@ == (DescriptionModel {
                category: category@,
                primary: None,
                secondary: None,
                kicker: None,
                board: Seq::empty(),
            }),
    {
        let d = RankDescription {
            category: String::from_str(category),
            primary: None,
            secondary: None,
            kicker: None,
            board: Vec::new(),
        };
        assert(d@.board =~= Seq::<Seq<char>>::empty());
        d
    }
}

/// The test for a card of the rank `r`.
pub open spec fn of_rank(r: Rank) -> spec_fn(Card) -> bool {
    |c: Card| c.rank == r
}

/// The test for a card of the suit `s`.
pub open spec fn of_suit(s: Suit) -> spec_fn(Card) -> bool {
    |c: Card| c.suit == s
}

/// How many of `cards` have the rank `r`.
pub open spec fn times(cards: Seq<Card>, r: Rank) -> int {
    seqs::count_of(cards, of_rank(r))
}

/// The ranks below place `i` that occur at least `least` times, descending,
/// but for the two ranks `skip` and `also`.
pub open spec fn ranks_held(
    cards: Seq<Card>,
    i: int,
    least: int,
    skip: Option<Rank>,
    also: Option<Rank>,
) -> Seq<Rank>
    decreases i,
{
    if i <= 0 {
        Seq::empty()
    } else {
        let r = Rank::at(i - 1);
        let lower = ranks_held(cards, i - 1, least, skip, also);
        if times(cards, r) >= least && skip != Some(r) && also != Some(r) {
            seq![r] + lower
        } else {
            lower
        }
    }
}

/// The ranks below place `i`, descending, each as often as it occurs.
pub open spec fn ranks_repeated(cards: Seq<Card>, i: int) -> Seq<Rank>
    decreases i,
{
    if i <= 0 {
        Seq::empty()
    } else {
        let r = Rank::at(i - 1);
        Seq::new(times(cards, r) as nat, |k: int| r) + ranks_repeated(cards, i - 1)
    }
}

/// The item at `i`, where there is one.
pub open spec fn item_at(s: Seq<Rank>, i: int) -> Option<Rank> {
    if i < s.len() {
        Some(s[i])
    } else {
        None
    }
}

/// The first `n` items, or all where there are fewer.
pub open spec fn up_to(s: Seq<Rank>, n: int) -> Seq<Rank> {
    if s.len() <= n {
        s
    } else {
        s.take(n)
    }
}

/// Whether five ranks in a row end at place `high`.
pub open spec fn run_to(cards: Seq<Card>, high: int) -> bool {
    forall|k: int| high - 4 <= k <= high ==> times(cards, #[trigger] Rank::at(k)) > 0
}

/// Whether there is a straight from the ace up to the five.
pub open spec fn wheel(cards: Seq<Card>) -> bool {
    times(cards, Rank::Ace) > 0 && times(cards, Rank::Two) > 0 && times(cards, Rank::Three) > 0
        && times(cards, Rank::Four) > 0 && times(cards, Rank::Five) > 0
}

/// The high card of the best straight that ends at or below place `high`.
pub open spec fn straight_high(cards: Seq<Card>, high: int) -> Option<Rank>
    decreases high,
{
    if high < 4 {
        if wheel(cards) {
            Some(Rank::Five)
        } else {
            None
        }
    } else if run_to(cards, high) {
        Some(Rank::at(high))
    } else {
        straight_high(cards, high - 1)
    }
}

/// The low end of the straight with the high card `high`; the ace below the five.
pub open spec fn straight_low(high: Rank) -> Rank {
    if high == Rank::Five {
        Rank::Ace
    } else {
        Rank::at(high.order() - 4)
    }
}

/// The five ranks of the straight with the high card `high`, descending.
pub open spec fn straight_ranks(high: Rank) -> Seq<Rank> {
    if high == Rank::Five {
        seq![Rank::Five, Rank::Four, Rank::Three, Rank::Two, Rank::Ace]
    } else {
        Seq::new(5, |k: int| Rank::at(high.order() - k))
    }
}

/// The first suit in canonical order with at least five cards.
pub open spec fn suit_of_flush(cards: Seq<Card>) -> Option<Suit> {
    if seqs::count_of(cards, of_suit(Suit::Spades)) >= 5 {
        Some(Suit::Spades)
    } else if seqs::count_of(cards, of_suit(Suit::Hearts)) >= 5 {
        Some(Suit::Hearts)
    } else if seqs::count_of(cards, of_suit(Suit::Diamonds)) >= 5 {
        Some(Suit::Diamonds)
    } else if seqs::count_of(cards, of_suit(Suit::Clubs)) >= 5 {
        Some(Suit::Clubs)
    } else {
        None
    }
}

/// The cards of the flush suit; none where there is no such suit.
pub open spec fn flush_cards(cards: Seq<Card>) -> Seq<Card> {
    match suit_of_flush(cards) {
        Some(s) => seqs::pick(cards, of_suit(s), |c: Card| c),
        None => Seq::empty(),
    }
}

pub open spec fn rank_text(r: Option<Rank>) -> Option<Seq<char>> {
    match r {
        Some(x) => Some(seq![x.letter()]),
        None => None,
    }
}

pub open spec fn rank_texts(s: Seq<Rank>) -> Seq<Seq<char>> {
    Seq::new(s.len(), |i: int| seq![s[i].letter()])
}

/// A description from its ranks.
pub open spec fn described(
    rank: HandRank,
    primary: Option<Rank>,
    secondary: Option<Rank>,
    kicker: Option<Rank>,
    board: Seq<Rank>,
) -> DescriptionModel {
    DescriptionModel {
        category: rank.label()@,
        primary: rank_text(primary),
        secondary: rank_text(secondary),
        kicker: rank_text(kicker),
        board: rank_texts(board),
    }
}

/// The description of `cards` whose rank is `rank`.
pub open spec fn description(rank: HandRank, cards: Seq<Card>) -> DescriptionModel {
    match rank {
        HandRank::HighCard(_) => {
            let held_ranks = ranks_held(cards, 13, 1, None, None);
            described(
                rank,
                item_at(held_ranks, 0),
                None,
                item_at(held_ranks, 1),
                up_to(held_ranks, 5),
            )
        },
        HandRank::OnePair(_) => {
            let pair = item_at(ranks_held(cards, 13, 2, None, None), 0);
            let kickers = ranks_held(cards, 13, 1, pair, None);
            described(rank, pair, None, item_at(kickers, 0), up_to(kickers, 3))
        },
        HandRank::TwoPair(_) => {
            let pairs = ranks_held(cards, 13, 2, None, None);
            let high = item_at(pairs, 0);
            let low = item_at(pairs, 1);
            let kickers = ranks_held(cards, 13, 1, high, low);
            described(rank, high, low, item_at(kickers, 0), Seq::empty())
        },
        HandRank::ThreeOfAKind(_) => {
            let trips = item_at(ranks_held(cards, 13, 3, None, None), 0);
            let kickers = ranks_held(cards, 13, 1, trips, None);
            described(rank, trips, None, item_at(kickers, 0), up_to(kickers, 2))
        },
        HandRank::Straight(_) => {
            match straight_high(cards, 12) {
                Some(h) => described(
                    rank,
                    Some(h),
                    None,
                    Some(straight_low(h)),
                    straight_ranks(h),
                ),
                None => described(rank, None, None, None, Seq::empty()),
            }
        },
        HandRank::Flush(_) => {
            let top = up_to(ranks_repeated(flush_cards(cards), 13), 5);
            described(rank, item_at(top, 0), None, None, top)
        },
        HandRank::FullHouse(_) => {
            let trips = item_at(ranks_held(cards, 13, 3, None, None), 0);
            let pair = item_at(ranks_held(cards, 13, 2, trips, None), 0);
            described(rank, trips, pair, None, Seq::empty())
        },
        HandRank::FourOfAKind(_) => {
            let quads = item_at(ranks_held(cards, 13, 4, None, None), 0);
            let kickers = ranks_held(cards, 13, 1, quads, None);
            described(rank, quads, None, item_at(kickers, 0), Seq::empty())
        },
        HandRank::StraightFlush(_) => {
            match straight_high(flush_cards(cards), 12) {
                Some(h) => described(rank, Some(h), None, None, straight_ranks(h)),
                None => described(rank, None, None, None, Seq::empty()),
            }
        },
    }
}

fn count_rank(cards: &Vec<Card>, r: Rank) -> (n: usize)
    ensures
        n == times(cards@, r),
        n <= cards@.len(),
{
    let mut n: usize = 0;
    let mut i: usize = 0;
    while i < cards.len()
        invariant
            i <= cards@.len(),
            n <= i,
            n == seqs::count_of(cards@.take(i as int), of_rank(r)),
        decreases cards@.len() - i,
    {
        proof {
            seqs::lemma_count_take(cards@, i as int, of_rank(r));
        }
        if cards[i].rank == r {
            n = n + 1;
        }
        i = i + 1;
    }
    assert(cards@.take(i as int) =~= cards@);
    n
}

fn count_suit(cards: &Vec<Card>, s: Suit) -> (n: usize)
    ensures
        n == seqs::count_of(cards@, of_suit(s)),
{
    let mut n: usize = 0;
    let mut i: usize = 0;
    while i < cards.len()
        invariant
            i <= cards@.len(),
            n <= i,
            n == seqs::count_of(cards@.take(i as int), of_suit(s)),
        decreases cards@.len() - i,
    {
        proof {
            seqs::lemma_count_take(cards@, i as int, of_suit(s));
        }
        if cards[i].suit == s {
            n = n + 1;
        }
        i = i + 1;
    }
    assert(cards@.take(i as int) =~= cards@);
    n
}

fn held_ranks(
    cards: &Vec<Card>,
    least: usize,
    skip: Option<Rank>,
    also: Option<Rank>,
) -> (v: Vec<Rank>)
    ensures
        v@ == ranks_held(cards@, 13, least as int, skip, also),
{
    let mut v: Vec<Rank> = Vec::new();
    let mut i: usize = 13;
    proof {
        assert(v@ + ranks_held(cards@, 13, least as int, skip, also) =~= ranks_held(
            cards@,
            13,
            least as int,
            skip,
            also,
        ));
    }
    while i > 0
        invariant
            i <= 13,
            v@ + ranks_held(cards@, i as int, least as int, skip, also) == ranks_held(
                cards@,
                13,
                least as int,
                skip,
                also,
            ),
        decreases i,
    {
        let r = Rank::from_index(i - 1);
        let skipped: bool = match skip {
            Some(x) => x == r,
            None => false,
        } || match also {
            Some(x) => x == r,
            None => false,
        };
        let ghost lower = ranks_held(cards@, i - 1, least as int, skip, also);
        let ghost before = v@;
        if count_rank(cards, r) >= least && !skipped {
            v.push(r);
            assert(before + (seq![r] + lower) =~= v@ + lower);
        }
        i = i - 1;
    }
    assert(v@ + ranks_held(cards@, 0, least as int, skip, also) =~= v@);
    v
}

fn repeated_ranks(cards: &Vec<Card>) -> (v: Vec<Rank>)
    ensures
        v@ == ranks_repeated(cards@, 13),
{
    let mut v: Vec<Rank> = Vec::new();
    let mut i: usize = 13;
    assert(v@ + ranks_repeated(cards@, 13) =~= ranks_repeated(cards@, 13));
    while i > 0
        invariant
            i <= 13,
            v@ + ranks_repeated(cards@, i as int) == ranks_repeated(cards@, 13),
        decreases i,
    {
        let r = Rank::from_index(i - 1);
        let n: usize = count_rank(cards, r);
        let ghost before = v@;
        let mut k: usize = 0;
        while k < n
            invariant
                k <= n,
                v@ == before + Seq::new(k as nat, |j: int| r),
            decreases n - k,
        {
            v.push(r);
            k = k + 1;
            assert(v@ =~= before + Seq::new(k as nat, |j: int| r));
        }
        proof {
            let lower = ranks_repeated(cards@, i - 1);
            let same = Seq::new(times(cards@, r) as nat, |j: int| r);
            assert(v@ =~= before + same);
            assert(before + (same + lower) =~= v@ + lower);
        }
        i = i - 1;
    }
    assert(v@ + ranks_repeated(cards@, 0) =~= v@);
    v
}

/// The high card of the best straight in `cards`.
fn straight_high_card(cards: &Vec<Card>) -> (r: Option<Rank>)
    ensures
        r == straight_high(cards@, 12),
        r matches Some(h) ==> h.order() >= 3,
{
    let mut high: usize = 12;
    while high >= 4
        invariant
            3 <= high <= 12,
            straight_high(cards@, high as int) == straight_high(cards@, 12),
        decreases high,
    {
        let mut run: bool = true;
        let mut k: usize = 0;
        while k < 5
            invariant
                k <= 5,
                4 <= high <= 12,
                run <==> forall|j: int|
                    high - k < j <= high ==> times(cards@, #[trigger] Rank::at(j)) > 0,
            decreases 5 - k,
        {
            if count_rank(cards, Rank::from_index(high - k)) == 0 {
                run = false;
                assert(times(cards@, Rank::at(high - k)) == 0);
            }
            k = k + 1;
        }
        assert(run == run_to(cards@, high as int)) by {
            if run {
                assert forall|j: int| high - 4 <= j <= high implies times(
                    cards@,
                    #[trigger] Rank::at(j),
                ) > 0 by {
                    assert(high - k < j);
                }
            }
            if run_to(cards@, high as int) {
                assert forall|j: int| high - k < j <= high implies times(
                    cards@,
                    #[trigger] Rank::at(j),
                ) > 0 by {
                    assert(high - 4 <= j);
                }
            }
        }
        if run {
            return Some(Rank::from_index(high));
        }
        high = high - 1;
    }
    if count_rank(cards, Rank::Ace) > 0 && count_rank(cards, Rank::Two) > 0 && count_rank(
        cards,
        Rank::Three,
    ) > 0 && count_rank(cards, Rank::Four) > 0 && count_rank(cards, Rank::Five) > 0 {
        Some(Rank::Five)
    } else {
        None
    }
}

/// The low end of the straight with the high card `high`.
fn straight_low_for(high: Rank) -> (r: Rank)
    requires
        high.order() >= 3,
    ensures
        r == straight_low(high),
{
    if high == Rank::Five {
        Rank::Ace
    } else {
        Rank::from_index(high.index() - 4)
    }
}

/// The five ranks of the straight with the high card `high`, descending.
fn five_straight_ranks(high: Rank) -> (v: Vec<Rank>)
    requires
        high.order() >= 3,
    ensures
        v@ == straight_ranks(high),
{
    let mut v: Vec<Rank> = Vec::new();
    if high == Rank::Five {
        v.push(Rank::Five);
        v.push(Rank::Four);
        v.push(Rank::Three);
        v.push(Rank::Two);
        v.push(Rank::Ace);
    } else {
        let top: usize = high.index();
        v.push(Rank::from_index(top));
        v.push(Rank::from_index(top - 1));
        v.push(Rank::from_index(top - 2));
        v.push(Rank::from_index(top - 3));
        v.push(Rank::from_index(top - 4));
    }
    assert(v@ =~= straight_ranks(high));
    v
}

/// The first suit with at least five cards.
fn flush_suit(cards: &Vec<Card>) -> (r: Option<Suit>)
    ensures
        r == suit_of_flush(cards@),
{
    if count_suit(cards, Suit::Spades) >= 5 {
        Some(Suit::Spades)
    } else if count_suit(cards, Suit::Hearts) >= 5 {
        Some(Suit::Hearts)
    } else if count_suit(cards, Suit::Diamonds) >= 5 {
        Some(Suit::Diamonds)
    } else if count_suit(cards, Suit::Clubs) >= 5 {
        Some(Suit::Clubs)
    } else {
        None
    }
}

fn cards_of_flush(cards: &Vec<Card>) -> (v: Vec<Card>)
    ensures
        v@ == flush_cards(cards@),
{
    let mut v: Vec<Card> = Vec::new();
    match flush_suit(cards) {
        Some(s) => {
            let ghost same = |c: Card| c;
            let mut i: usize = 0;
            while i < cards.len()
                invariant
                    i <= cards@.len(),
                    same == (|c: Card| c),
                    v@ == seqs::pick(cards@.take(i as int), of_suit(s), same),
                decreases cards@.len() - i,
            {
                proof {
                    seqs::lemma_pick_take(cards@, i as int, of_suit(s), same);
                }
                if cards[i].suit == s {
                    v.push(cards[i]);
                }
                i = i + 1;
            }
            assert(cards@.take(i as int) =~= cards@);
        },
        None => {},
    }
    v
}

fn nth(v: &Vec<Rank>, i: usize) -> (r: Option<Rank>)
    ensures
        r == item_at(v@, i as int),
{
    if i < v.len() {
        Some(v[i])
    } else {
        None
    }
}

fn rank_str(r: Option<Rank>) -> (s: Option<String>)
    ensures
        text_of(s) == rank_text(r),
{
    match r {
        Some(x) => Some(x.to_string()),
        None => None,
    }
}

fn describe(
    rank: HandRank,
    primary: Option<Rank>,
    secondary: Option<Rank>,
    kicker: Option<Rank>,
    board: &Vec<Rank>,
    most: usize,
) -> (d: RankDescription)
    ensures
        d@ == described(rank, primary, secondary, kicker, up_to(board@, most as int)),
{
    let mut texts: Vec<String> = Vec::new();
    let ghost top = up_to(board@, most as int);
    let mut i: usize = 0;
    while i < board.len() && i < most
        invariant
            i <= board@.len(),
            i <= most,
            top == up_to(board@, most as int),
            texts_of(texts@) == rank_texts(top).take(i as int),
        decreases board@.len() - i,
    {
        let ghost before = texts@;
        texts.push(board[i].to_string());
        assert(texts_of(texts@) =~= texts_of(before).push(seq![board@[i as int].letter()]));
        assert(texts_of(texts@) =~= rank_texts(top).take(i + 1));
        i = i + 1;
    }
    let d = RankDescription {
        category: String::from_str(rank.name()),
        primary: rank_str(primary),
        secondary: rank_str(secondary),
        kicker: rank_str(kicker),
        board: texts,
    };
    assert(d@.board =~= rank_texts(top));
    d
}

/// Describes hole cards and a board whose best rank is `rank`: which ranks make
/// the category, and which kickers decide between hands of that category.
pub fn describe_ranked(rank: HandRank, hole: &HoleCards, board: &BoardCards) -> (d:
    RankDescription)
    ensures
        d@ == description(rank, hole.cards() + board@.cards()),
{
    let cards = gather(hole, board);
    let none: Vec<Rank> = Vec::new();
    match rank {
        HandRank::HighCard(_) => {
            let all = held_ranks(&cards, 1, None, None);
            describe(rank, nth(&all, 0), None, nth(&all, 1), &all, 5)
        },
        HandRank::OnePair(_) => {
            let pair = nth(&held_ranks(&cards, 2, None, None), 0);
            let kickers = held_ranks(&cards, 1, pair, None);
            describe(rank, pair, None, nth(&kickers, 0), &kickers, 3)
        },
        HandRank::TwoPair(_) => {
            let pairs = held_ranks(&cards, 2, None, None);
            let high = nth(&pairs, 0);
            let low = nth(&pairs, 1);
            let kickers = held_ranks(&cards, 1, high, low);
            describe(rank, high, low, nth(&kickers, 0), &none, 0)
        },
        HandRank::ThreeOfAKind(_) => {
            let trips = nth(&held_ranks(&cards, 3, None, None), 0);
            let kickers = held_ranks(&cards, 1, trips, None);
            describe(rank, trips, None, nth(&kickers, 0), &kickers, 2)
        },
        HandRank::Straight(_) => {
            match straight_high_card(&cards) {
                Some(h) => {
                    let row = five_straight_ranks(h);
                    describe(rank, Some(h), None, Some(straight_low_for(h)), &row, 5)
                },
                None => describe(rank, None, None, None, &none, 0),
            }
        },
        HandRank::Flush(_) => {
            let all = repeated_ranks(&cards_of_flush(&cards));
            describe(rank, nth(&all, 0), None, None, &all, 5)
        },
        HandRank::FullHouse(_) => {
            let trips = nth(&held_ranks(&cards, 3, None, None), 0);
            let pair = nth(&held_ranks(&cards, 2, trips, None), 0);
            describe(rank, trips, pair, None, &none, 0)
        },
        HandRank::FourOfAKind(_) => {
            let quads = nth(&held_ranks(&cards, 4, None, None), 0);
            let kickers = held_ranks(&cards, 1, quads, None);
            describe(rank, quads, None, nth(&kickers, 0), &none, 0)
        },
        HandRank::StraightFlush(_) => {
            match straight_high_card(&cards_of_flush(&cards)) {
                Some(h) => {
                    let row = five_straight_ranks(h);
                    describe(rank, Some(h), None, None, &row, 5)
                },
                None => describe(rank, None, None, None, &none, 0),
            }
        },
    }
}

/// Describes the best hand that hole cards make with the board. The rank that
/// the category is about is always named, and so is all that the category takes.
pub fn describe_hand(hole: &HoleCards, board: &BoardCards) -> (d: RankDescription)
    ensures
        d@ == description(rank_on_board(*hole, board@), hole.cards() + board@.cards()),
        telling::told_in_full(rank_on_board(*hole, board@), d@),
        telling::names_its_ranks(
            rank_on_board(*hole, board@),
            hole.cards() + board@.cards(),
            d@,
        ),
{
    let rank = rank_hand(hole, board);
    proof {
        telling::lemma_told_in_full(rank, hole.cards() + board@.cards());
        telling::law_descriptions_name_the_ranks_that_count(rank, hole.cards() + board@.cards());
    }
    describe_ranked(rank, hole, board)
}

} // verus!
