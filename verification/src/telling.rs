//! Why the description of a hand names what it is about.

use crate::card::{Card, Rank, Suit};
use crate::eval::{DescriptionModel, HandRank};
use crate::eval;
use crate::seqs;
use vstd::prelude::*;

verus! {

/// A description that is complete: it names the rank that the category is
/// about; the lower pair, or the pair of a full house; the low end of a
/// straight; and all five ranks of a straight or a flush.
pub open spec fn told_in_full(rank: HandRank, d: DescriptionModel) -> bool {
    &&& d.primary is Some
    &&& rank is TwoPair || rank is FullHouse ==> d.secondary is Some
    &&& rank is Straight ==> d.kicker is Some
    &&& rank is Straight || rank is Flush || rank is StraightFlush ==> d.board.len() == 5
}

/// The test for one card.
pub open spec fn is_card(c: Card) -> spec_fn(Card) -> bool {
    |x: Card| x == c
}

/// The test for a card of a rank, in one of two suits.
spec fn in_suits(r: Rank, a: Suit, b: Suit) -> spec_fn(Card) -> bool {
    |x: Card| x.rank == r && (x.suit == a || x.suit == b)
}

/// The test for a card of a suit whose rank is below place `i`.
spec fn suited_below(suit: Suit, i: int) -> spec_fn(Card) -> bool {
    |x: Card| x.suit == suit && x.rank.order() < i
}

/// The test for a card whose rank is below place `i`.
spec fn ranked_below(i: int) -> spec_fn(Card) -> bool {
    |x: Card| x.rank.order() < i
}

proof fn lemma_card_there(cards: Seq<Card>, c: Card)
    ensures
        eval::codes_of(cards).to_set().contains(eval::code_of(c)) <==> cards.contains(c),
        cards.contains(c) ==> seqs::count_of(cards, is_card(c)) >= 1,
        seqs::count_of(cards, is_card(c)) >= eval::one_if(
            eval::codes_of(cards).to_set().contains(eval::code_of(c)),
        ),
{
    let codes = eval::codes_of(cards);
    seqs::lemma_count_bounds(cards, is_card(c));
    if codes.contains(eval::code_of(c)) {
        let i = choose|i: int| 0 <= i < codes.len() && codes[i] == eval::code_of(c);
        eval::law_cards_have_their_own_numbers(cards[i], c);
        assert(cards[i] == c);
    }
    if cards.contains(c) {
        let i = choose|i: int| 0 <= i < cards.len() && cards[i] == c;
        assert(codes[i] == eval::code_of(c));
        assert(is_card(c)(cards[i]));
        seqs::lemma_count_positive(cards, i, is_card(c));
    }
}

/// A rank occurs at least as often as it occurs in different suits.
proof fn lemma_times_copies(cards: Seq<Card>, v: int)
    requires
        0 <= v < 13,
    ensures
        eval::times(cards, Rank::at(v)) >= eval::copies(eval::codes_of(cards).to_set(), v),
{
    let r = Rank::at(v);
    let s = Card { rank: r, suit: Suit::Spades };
    let c = Card { rank: r, suit: Suit::Clubs };
    let h = Card { rank: r, suit: Suit::Hearts };
    let d = Card { rank: r, suit: Suit::Diamonds };
    lemma_card_there(cards, s);
    lemma_card_there(cards, c);
    lemma_card_there(cards, h);
    lemma_card_there(cards, d);
    let black = in_suits(r, Suit::Spades, Suit::Clubs);
    let red = in_suits(r, Suit::Hearts, Suit::Diamonds);
    seqs::lemma_count_split(cards, black, is_card(s), is_card(c));
    seqs::lemma_count_split(cards, red, is_card(h), is_card(d));
    seqs::lemma_count_split(cards, eval::of_rank(r), black, red);
}

/// How many ranks below place `i` occur in at least `least` suits.
spec fn ranks_from(codes: Set<u8>, least: int, i: int) -> int
    decreases i,
{
    if i <= 0 {
        0
    } else {
        ranks_from(codes, least, i - 1) + eval::one_if(eval::copies(codes, i - 1) >= least)
    }
}

proof fn lemma_ranks_from(codes: Set<u8>, i: int)
    ensures
        ranks_from(codes, 2, i) >= eval::ranks_seen(codes, 2, i) + eval::ranks_seen(codes, 3, i),
        ranks_from(codes, 3, i) >= eval::ranks_seen(codes, 3, i),
        ranks_from(codes, 4, i) >= eval::ranks_seen(codes, 4, i),
        eval::ranks_seen(codes, 2, i) >= 0,
        eval::ranks_seen(codes, 3, i) >= 0,
    decreases i,
{
    if i > 0 {
        lemma_ranks_from(codes, i - 1);
    }
}

/// Ranks that occur often enough in different suits are listed, but for one that is skipped.
proof fn lemma_ranks_held(cards: Seq<Card>, i: int, least: int, skip: Option<Rank>)
    requires
        0 <= i <= 13,
    ensures
        eval::ranks_held(cards, i, least, skip, None).len() >= ranks_from(
            eval::codes_of(cards).to_set(),
            least,
            i,
        ) - (match skip {
            Some(x) => eval::one_if(x.order() < i),
            None => 0,
        }),
    decreases i,
{
    if i > 0 {
        lemma_ranks_held(cards, i - 1, least, skip);
        lemma_times_copies(cards, i - 1);
        assert(Rank::at(i - 1).order() == i - 1);
    }
}

/// A rank that occurs often enough is listed.
proof fn lemma_rank_listed(cards: Seq<Card>, i: int, v: int)
    requires
        0 <= v < i <= 13,
        eval::times(cards, Rank::at(v)) >= 1,
    ensures
        eval::ranks_held(cards, i, 1, None, None).len() >= 1,
    decreases i,
{
    if v < i - 1 {
        lemma_rank_listed(cards, i - 1, v);
    }
}

/// A row of five ranks is found.
proof fn lemma_row_found(cards: Seq<Card>, high: int, top: int)
    requires
        4 <= high <= top <= 12,
        eval::run_to(cards, high),
    ensures
        eval::straight_high(cards, top) is Some,
    decreases top,
{
    if high < top {
        lemma_row_found(cards, high, top - 1);
    }
}

/// The row from the ace to the five is found.
proof fn lemma_wheel_found(cards: Seq<Card>, top: int)
    requires
        3 <= top <= 12,
        eval::wheel(cards),
    ensures
        eval::straight_high(cards, top) is Some,
    decreases top,
{
    if top > 3 {
        lemma_wheel_found(cards, top - 1);
    }
}

/// Where the ranks of a row are among `cards`, the row is found.
proof fn lemma_run_found(cards: Seq<Card>, present: spec_fn(int) -> bool)
    requires
        eval::has_run(present),
        forall|v: int| 0 <= v < 13 && #[trigger] present(v) ==> eval::times(cards, Rank::at(v)) > 0,
    ensures
        eval::straight_high(cards, 12) is Some,
{
    if exists|high: int| 4 <= high <= 12 && #[trigger] eval::row_ends_at(present, high) {
        let high = choose|high: int| 4 <= high <= 12 && #[trigger] eval::row_ends_at(present, high);
        assert(present(high) && present(high - 1) && present(high - 2) && present(high - 3)
            && present(high - 4));
        assert(eval::run_to(cards, high)) by {
            assert forall|k: int| high - 4 <= k <= high implies eval::times(
                cards,
                #[trigger] Rank::at(k),
            ) > 0 by {
                assert(k == high || k == high - 1 || k == high - 2 || k == high - 3 || k == high
                    - 4);
                assert(present(k));
            }
        }
        lemma_row_found(cards, high, 12);
    } else {
        assert(present(12) && present(0) && present(1) && present(2) && present(3));
        assert(Rank::at(12) == Rank::Ace && Rank::at(0) == Rank::Two && Rank::at(1) == Rank::Three
            && Rank::at(2) == Rank::Four && Rank::at(3) == Rank::Five);
        assert(eval::wheel(cards));
        lemma_wheel_found(cards, 12);
    }
}

/// A suit has at least as many cards as it has different ranks.
proof fn lemma_suit_count(cards: Seq<Card>, suit: Suit, i: int)
    requires
        0 <= i <= 13,
    ensures
        seqs::count_of(cards, suited_below(suit, i)) >= eval::suit_seen(
            eval::codes_of(cards).to_set(),
            eval::suit_base(suit),
            i,
        ),
    decreases i,
{
    seqs::lemma_count_bounds(cards, suited_below(suit, i));
    if i > 0 {
        lemma_suit_count(cards, suit, i - 1);
        let c = Card { rank: Rank::at(i - 1), suit };
        assert(c.rank.order() == i - 1);
        assert(eval::code_of(c) == (eval::suit_base(suit) + i - 1) as u8);
        lemma_card_there(cards, c);
        assert forall|x: Card| #[trigger] suited_below(suit, i)(x) == (suited_below(suit, i - 1)(x)
            || is_card(c)(x)) by {
            if x.suit == suit && x.rank.order() == i - 1 {
                assert(x.rank == c.rank);
            }
        }
        seqs::lemma_count_split(
            cards,
            suited_below(suit, i),
            suited_below(suit, i - 1),
            is_card(c),
        );
    }
}

/// A suit that has five different ranks is a flush.
proof fn lemma_suit_cards(cards: Seq<Card>, suit: Suit)
    requires
        eval::suit_seen(eval::codes_of(cards).to_set(), eval::suit_base(suit), 13) >= 5,
    ensures
        seqs::count_of(cards, eval::of_suit(suit)) >= 5,
        eval::suit_of_flush(cards) is Some,
{
    lemma_suit_count(cards, suit, 13);
    seqs::lemma_count_same(cards, cards, eval::of_suit(suit), suited_below(suit, 13));
}

/// Listing every rank as often as it occurs lists every card below place `i`.
proof fn lemma_repeated_len(cards: Seq<Card>, i: int)
    requires
        0 <= i <= 13,
    ensures
        eval::ranks_repeated(cards, i).len() == seqs::count_of(cards, ranked_below(i)),
    decreases i,
{
    seqs::lemma_count_bounds(cards, ranked_below(i));
    if i > 0 {
        lemma_repeated_len(cards, i - 1);
        let r = Rank::at(i - 1);
        assert(r.order() == i - 1);
        seqs::lemma_count_bounds(cards, eval::of_rank(r));
        assert forall|x: Card| #[trigger] ranked_below(i)(x) == (ranked_below(i - 1)(x)
            || eval::of_rank(r)(x)) by {
            if x.rank.order() == i - 1 {
                assert(x.rank == r);
            }
        }
        seqs::lemma_count_split(cards, ranked_below(i), ranked_below(i - 1), eval::of_rank(r));
    } else {
        lemma_count_none(cards, ranked_below(0));
    }
}

proof fn lemma_count_none(cards: Seq<Card>, f: spec_fn(Card) -> bool)
    requires
        forall|x: Card| !(#[trigger] f(x)),
    ensures
        seqs::count_of(cards, f) == 0,
    decreases cards.len(),
{
    if cards.len() > 0 {
        lemma_count_none(cards.drop_last(), f);
        assert(!f(cards.last()));
    }
}

proof fn lemma_count_all(cards: Seq<Card>, f: spec_fn(Card) -> bool)
    requires
        forall|x: Card| #[trigger] f(x),
    ensures
        seqs::count_of(cards, f) == cards.len(),
    decreases cards.len(),
{
    if cards.len() > 0 {
        lemma_count_all(cards.drop_last(), f);
        assert(f(cards.last()));
    }
}

/// The flush of at least five cards lists five ranks.
proof fn lemma_flush_told(cards: Seq<Card>, suit: Suit)
    requires
        eval::suit_seen(eval::codes_of(cards).to_set(), eval::suit_base(suit), 13) >= 5,
    ensures
        eval::ranks_repeated(eval::flush_cards(cards), 13).len() >= 5,
{
    lemma_suit_cards(cards, suit);
    let s = eval::suit_of_flush(cards)->Some_0;
    let same = |c: Card| c;
    seqs::lemma_pick_from(cards, eval::of_suit(s), same);
    let flush = eval::flush_cards(cards);
    assert(flush.len() == seqs::count_of(cards, eval::of_suit(s)));
    lemma_repeated_len(flush, 13);
    lemma_count_all(flush, ranked_below(13));
}

/// The test for a card of one of two suits.
spec fn of_suits(a: Suit, b: Suit) -> spec_fn(Card) -> bool {
    |x: Card| x.suit == a || x.suit == b
}

/// Of at most seven cards only one suit can be a flush.
proof fn lemma_one_flush(cards: Seq<Card>, suit: Suit)
    requires
        cards.len() <= 7,
        seqs::count_of(cards, eval::of_suit(suit)) >= 5,
    ensures
        eval::suit_of_flush(cards) == Some(suit),
{
    assert forall|other: Suit| other != suit implies #[trigger] seqs::count_of(
        cards,
        eval::of_suit(other),
    )
        < 5 by {
        seqs::lemma_count_split(
            cards,
            of_suits(suit, other),
            eval::of_suit(suit),
            eval::of_suit(other),
        );
        seqs::lemma_count_bounds(cards, of_suits(suit, other));
    }
}

/// A row inside the flush suit is found among the cards of that suit.
proof fn lemma_straight_flush_told(cards: Seq<Card>, suit: Suit)
    requires
        cards.len() <= 7,
        eval::suit_seen(eval::codes_of(cards).to_set(), eval::suit_base(suit), 13) >= 5,
        eval::has_run(
            eval::rank_there_in_suit(eval::codes_of(cards).to_set(), eval::suit_base(suit)),
        ),
    ensures
        eval::straight_high(eval::flush_cards(cards), 12) is Some,
{
    lemma_suit_cards(cards, suit);
    lemma_one_flush(cards, suit);
    let codes = eval::codes_of(cards).to_set();
    let flush = eval::flush_cards(cards);
    let same = |c: Card| c;
    let present = eval::rank_there_in_suit(codes, eval::suit_base(suit));
    assert forall|v: int| 0 <= v < 13 && #[trigger] present(v) implies eval::times(
        flush,
        Rank::at(v),
    )
        > 0 by {
        let c = Card { rank: Rank::at(v), suit };
        assert(c.rank.order() == v);
        assert(eval::code_of(c) == (eval::suit_base(suit) + v) as u8);
        lemma_card_there(cards, c);
        let i = choose|i: int| 0 <= i < cards.len() && cards[i] == c;
        assert(eval::of_suit(suit)(cards[i]));
        seqs::lemma_pick_has(cards, i, eval::of_suit(suit), same);
        assert(flush.contains(c));
        let j = choose|j: int| 0 <= j < flush.len() && flush[j] == c;
        assert(eval::of_rank(c.rank)(flush[j]));
        seqs::lemma_count_positive(flush, j, eval::of_rank(c.rank));
    }
    lemma_run_found(flush, present);
}

/// Where the category fits the cards, the description is complete.
pub proof fn lemma_told_in_full(rank: HandRank, cards: Seq<Card>)
    requires
        1 <= cards.len() <= 7,
        eval::category_fits(eval::codes_of(cards).to_set(), rank),
    ensures
        told_in_full(rank, eval::description(rank, cards)),
{
    let codes = eval::codes_of(cards).to_set();
    lemma_ranks_from(codes, 13);
    match rank {
        HandRank::HighCard(_) => {
            let r = cards[0].rank;
            assert(Rank::at(r.order()) == r);
            assert(eval::of_rank(r)(cards[0]));
            seqs::lemma_count_positive(cards, 0, eval::of_rank(r));
            lemma_rank_listed(cards, 13, r.order());
        },
        HandRank::OnePair(_) | HandRank::TwoPair(_) => {
            lemma_ranks_held(cards, 13, 2, None);
        },
        HandRank::ThreeOfAKind(_) => {
            lemma_ranks_held(cards, 13, 3, None);
        },
        HandRank::FourOfAKind(_) => {
            lemma_ranks_held(cards, 13, 4, None);
        },
        HandRank::FullHouse(_) => {
            lemma_ranks_held(cards, 13, 3, None);
            let trips = eval::item_at(eval::ranks_held(cards, 13, 3, None, None), 0);
            lemma_ranks_held(cards, 13, 2, trips);
        },
        HandRank::Straight(_) => {
            assert forall|v: int| 0 <= v < 13 && #[trigger] eval::rank_there(
                codes,
            )(v) implies eval::times(
                cards,
                Rank::at(v),
            ) > 0 by {
                lemma_times_copies(cards, v);
            }
            lemma_run_found(cards, eval::rank_there(codes));
        },
        HandRank::Flush(_) => {
            let suit = choose|suit: Suit| #[trigger] eval::suit_seen(
                codes,
                eval::suit_base(suit),
                13,
            ) >= 5;
            lemma_flush_told(cards, suit);
        },
        HandRank::StraightFlush(_) => {
            let suit = choose|suit: Suit| #[trigger]
                eval::suit_seen(codes, eval::suit_base(suit), 13) >= 5 && eval::has_run(
                    eval::rank_there_in_suit(codes, eval::suit_base(suit)),
                );
            lemma_straight_flush_told(cards, suit);
        },
    }
}

// ---- what a description names ----
/// How many of the cards have the rank `r`.
pub open spec fn how_many(cards: Seq<Card>, r: Rank) -> nat {
    cards.filter(|c: Card| c.rank == r).len()
}

/// How many of the cards have the suit `s`.
pub open spec fn how_many_suited(cards: Seq<Card>, s: Suit) -> nat {
    cards.filter(|c: Card| c.suit == s).len()
}

/// The test for a rank that occurs at least `least` times and is not among `but`.
pub open spec fn occurs(cards: Seq<Card>, least: int, but: Seq<Rank>) -> spec_fn(Rank) -> bool {
    |r: Rank| how_many(cards, r) >= least && !but.contains(r)
}

/// The test for a rank of which there is a card in the suit `s`.
pub open spec fn occurs_in(cards: Seq<Card>, s: Suit) -> spec_fn(Rank) -> bool {
    |r: Rank| cards.contains(Card { rank: r, suit: s })
}

/// `row` holds the highest ranks that `test` accepts, the highest first: `most`
/// of them, or all where there are fewer.
pub open spec fn are_highest(row: Seq<Rank>, test: spec_fn(Rank) -> bool, most: int) -> bool {
    &&& row.len() <= most
    &&& forall|i: int| 0 <= i < row.len() ==> test(#[trigger] row[i])
    &&& forall|i: int, j: int|
        #![trigger row[i], row[j]]
        0 <= i < j < row.len() ==> row[j].order() < row[i].order()
    &&& forall|r: Rank| #[trigger]
        test(r) && !row.contains(r) ==> row.len() == most && forall|i: int|
            0 <= i < row.len() ==> r.order() < (#[trigger] row[i]).order()
}

/// The letter of the rank at place `i` of `row`, where there is one.
pub open spec fn names(t: Option<Seq<char>>, row: Seq<Rank>, i: int) -> bool {
    t == if i < row.len() {
        Some(seq![row[i].letter()])
    } else {
        None::<Seq<char>>
    }
}

/// The letters of the ranks of `row`.
pub open spec fn names_all(texts: Seq<Seq<char>>, row: Seq<Rank>) -> bool {
    &&& texts.len() == row.len()
    &&& forall|i: int| 0 <= i < row.len() ==> #[trigger] texts[i] == seq![row[i].letter()]
}

/// The place of the rank `k` below the one at place `high`; the ace is below the two.
pub open spec fn rank_below(high: int, k: int) -> Rank {
    if high - k < 0 {
        Rank::at(high - k + 13)
    } else {
        Rank::at(high - k)
    }
}

/// The test for a rank at the top of five ranks in a row that all are present.
pub open spec fn tops_row(present: spec_fn(Rank) -> bool) -> spec_fn(Rank) -> bool {
    |r: Rank|
        r.order() >= 3 && forall|k: int|
            0 <= k < 5 ==> present(#[trigger] rank_below(r.order(), k))
}

/// The description names the five ranks of the row with `top` as its highest.
pub open spec fn names_row(d: DescriptionModel, top: Seq<Rank>) -> bool {
    &&& names(d.primary, top, 0)
    &&& top.len() == 0 ==> d.board.len() == 0
    &&& top.len() > 0 ==> d.board.len() == 5 && forall|k: int|
        0 <= k < 5 ==> #[trigger] d.board[k] == seq![rank_below(top[0].order(), k).letter()]
}

/// The description of `cards` of the category of `rank` names `main`, the ranks
/// that the category is about, and `rest`, those that decide after them.
pub open spec fn names_ranks(
    rank: HandRank,
    cards: Seq<Card>,
    d: DescriptionModel,
    main: Seq<Rank>,
    rest: Seq<Rank>,
) -> bool {
    let any = Seq::<Rank>::empty();
    match rank {
        HandRank::HighCard(_) => {
            &&& are_highest(main, occurs(cards, 1, any), 5)
            &&& names(d.primary, main, 0)
            &&& d.secondary is None
            &&& names(d.kicker, main, 1)
            &&& names_all(d.board, main)
        },
        HandRank::OnePair(_) => {
            &&& are_highest(main, occurs(cards, 2, any), 1)
            &&& are_highest(rest, occurs(cards, 1, main), 3)
            &&& names(d.primary, main, 0)
            &&& d.secondary is None
            &&& names(d.kicker, rest, 0)
            &&& names_all(d.board, rest)
        },
        HandRank::TwoPair(_) => {
            &&& are_highest(main, occurs(cards, 2, any), 2)
            &&& are_highest(rest, occurs(cards, 1, main), 1)
            &&& names(d.primary, main, 0)
            &&& names(d.secondary, main, 1)
            &&& names(d.kicker, rest, 0)
            &&& d.board.len() == 0
        },
        HandRank::ThreeOfAKind(_) => {
            &&& are_highest(main, occurs(cards, 3, any), 1)
            &&& are_highest(rest, occurs(cards, 1, main), 2)
            &&& names(d.primary, main, 0)
            &&& d.secondary is None
            &&& names(d.kicker, rest, 0)
            &&& names_all(d.board, rest)
        },
        HandRank::Straight(_) => {
            &&& are_highest(main, tops_row(occurs(cards, 1, any)), 1)
            &&& names_row(d, main)
            &&& d.secondary is None
            &&& d.kicker == if main.len() > 0 {
                Some(d.board[4])
            } else {
                None
            }
        },
        HandRank::Flush(_) => {
            &&& forall|s: Suit|
                #[trigger] how_many_suited(cards, s) >= 5 && cards.no_duplicates() ==> {
                    &&& are_highest(main, occurs_in(cards, s), 5)
                    &&& names(d.primary, main, 0)
                    &&& names_all(d.board, main)
                }
            &&& d.secondary is None
            &&& d.kicker is None
        },
        HandRank::FullHouse(_) => {
            &&& are_highest(main, occurs(cards, 3, any), 1)
            &&& are_highest(rest, occurs(cards, 2, main), 1)
            &&& names(d.primary, main, 0)
            &&& names(d.secondary, rest, 0)
            &&& d.kicker is None
            &&& d.board.len() == 0
        },
        HandRank::FourOfAKind(_) => {
            &&& are_highest(main, occurs(cards, 4, any), 1)
            &&& are_highest(rest, occurs(cards, 1, main), 1)
            &&& names(d.primary, main, 0)
            &&& d.secondary is None
            &&& names(d.kicker, rest, 0)
            &&& d.board.len() == 0
        },
        HandRank::StraightFlush(_) => {
            &&& forall|s: Suit|
                #[trigger] how_many_suited(cards, s) >= 5 ==> are_highest(
                    main,
                    tops_row(occurs_in(cards, s)),
                    1,
                )
            &&& names_row(d, main)
            &&& d.secondary is None
            &&& d.kicker is None
        },
    }
}

/// A description names the ranks that make the category and those that decide
/// between hands of it, the highest first.
pub open spec fn names_its_ranks(rank: HandRank, cards: Seq<Card>, d: DescriptionModel) -> bool {
    exists|main: Seq<Rank>, rest: Seq<Rank>| #[trigger] names_ranks(rank, cards, d, main, rest)
}

proof fn lemma_times(cards: Seq<Card>, r: Rank)
    ensures
        eval::times(cards, r) == how_many(cards, r),
    decreases cards.len(),
{
    reveal(Seq::filter);
    if cards.len() > 0 {
        lemma_times(cards.drop_last(), r);
    }
}

proof fn lemma_suited(cards: Seq<Card>, s: Suit)
    ensures
        seqs::count_of(cards, eval::of_suit(s)) == how_many_suited(cards, s),
    decreases cards.len(),
{
    reveal(Seq::filter);
    if cards.len() > 0 {
        lemma_suited(cards.drop_last(), s);
    }
}

/// The ranks held, but for those skipped, are exactly those that occur often
/// enough, the highest first.
proof fn lemma_held(
    cards: Seq<Card>,
    i: int,
    least: int,
    skip: Option<Rank>,
    also: Option<Rank>,
    but: Seq<Rank>,
)
    requires
        0 <= i <= 13,
        forall|r: Rank| #[trigger] but.contains(r) <==> (skip == Some(r) || also == Some(r)),
    ensures
        ({
            let row = eval::ranks_held(cards, i, least, skip, also);
            let test = occurs(cards, least, but);
            &&& forall|k: int|
                0 <= k < row.len() ==> test(#[trigger] row[k]) && row[k].order() < i
            &&& forall|a: int, b: int|
                #![trigger row[a], row[b]]
                0 <= a < b < row.len() ==> row[b].order() < row[a].order()
            &&& forall|r: Rank| #[trigger] test(r) && r.order() < i ==> row.contains(r)
        }),
    decreases i,
{
    if i > 0 {
        lemma_held(cards, i - 1, least, skip, also, but);
        let r = Rank::at(i - 1);
        lemma_times(cards, r);
        assert(r.order() == i - 1);
        let test = occurs(cards, least, but);
        let row = eval::ranks_held(cards, i, least, skip, also);
        let lower = eval::ranks_held(cards, i - 1, least, skip, also);
        let taken = eval::times(cards, r) >= least && skip != Some(r) && also != Some(r);
        assert(taken == test(r)) by {
            assert(but.contains(r) <==> (skip == Some(r) || also == Some(r)));
        }
        if taken {
            assert(row[0] == r);
            assert forall|k: int| 0 <= k < row.len() implies test(#[trigger] row[k])
                && row[k].order() < i by {
                if k > 0 {
                    assert(row[k] == lower[k - 1]);
                }
            }
            assert forall|a: int, b: int|
                #![trigger row[a], row[b]]
                0 <= a < b < row.len() implies row[b].order() < row[a].order() by {
                assert(row[b] == lower[b - 1]);
                if a > 0 {
                    assert(row[a] == lower[a - 1]);
                }
            }
        }
        assert forall|q: Rank| #[trigger] test(q) && q.order() < i implies row.contains(q) by {
            if q.order() < i - 1 {
                assert(lower.contains(q));
                let k = choose|k: int| 0 <= k < lower.len() && lower[k] == q;
                if taken {
                    assert(row[k + 1] == q);
                }
            } else {
                assert(q == r);
            }
        }
    }
}

/// The first of the ranks held are the highest.
proof fn lemma_highest(
    cards: Seq<Card>,
    least: int,
    skip: Option<Rank>,
    also: Option<Rank>,
    but: Seq<Rank>,
    most: int,
)
    requires
        0 <= most,
        forall|r: Rank| #[trigger] but.contains(r) <==> (skip == Some(r) || also == Some(r)),
    ensures
        are_highest(
            eval::up_to(eval::ranks_held(cards, 13, least, skip, also), most),
            occurs(cards, least, but),
            most,
        ),
{
    lemma_held(cards, 13, least, skip, also, but);
    let all = eval::ranks_held(cards, 13, least, skip, also);
    let row = eval::up_to(all, most);
    let test = occurs(cards, least, but);
    assert forall|i: int| 0 <= i < row.len() implies test(#[trigger] row[i]) by {
        assert(row[i] == all[i]);
    }
    assert forall|i: int, j: int|
        #![trigger row[i], row[j]]
        0 <= i < j < row.len() implies row[j].order() < row[i].order() by {
        assert(row[i] == all[i] && row[j] == all[j]);
    }
    assert forall|r: Rank| #[trigger] test(r) && !row.contains(r) implies row.len() == most
        && forall|i: int| 0 <= i < row.len() ==> r.order() < (#[trigger] row[i]).order() by {
        assert(all.contains(r));
        let k = choose|k: int| 0 <= k < all.len() && all[k] == r;
        if k < row.len() {
            assert(row[k] == r);
        }
        assert forall|i: int| 0 <= i < row.len() implies r.order() < (
        #[trigger] row[i]).order() by {
            assert(row[i] == all[i]);
        }
    }
}

/// The best row that ends at or below place `high` is the highest.
proof fn lemma_best_row(cards: Seq<Card>, present: spec_fn(Rank) -> bool, high: int)
    requires
        3 <= high <= 12,
        forall|r: Rank| #[trigger] present(r) <==> eval::times(cards, r) > 0,
    ensures
        match eval::straight_high(cards, high) {
            Some(h) => 3 <= h.order() <= high && tops_row(present)(h) && forall|r: Rank|
                #[trigger] tops_row(present)(r) && r.order() <= high ==> r.order() <= h.order(),
            None => forall|r: Rank| #[trigger] tops_row(present)(r) ==> r.order() > high,
        },
    decreases high,
{
    let top = Rank::at(high);
    assert(top.order() == high);
    if high < 4 {
        let five = Rank::Five;
        assert(five.order() == 3);
        assert(rank_below(3, 0) == Rank::Five && rank_below(3, 1) == Rank::Four && rank_below(3, 2)
            == Rank::Three && rank_below(3, 3) == Rank::Two && rank_below(3, 4) == Rank::Ace);
        if eval::wheel(cards) {
            assert(tops_row(present)(five)) by {
                assert forall|k: int| 0 <= k < 5 implies present(
                    #[trigger] rank_below(five.order(), k),
                ) by {
                    assert(k == 0 || k == 1 || k == 2 || k == 3 || k == 4);
                }
            }
        }
        assert forall|r: Rank| #[trigger] tops_row(present)(r) && r.order() <= high implies r
            == five && eval::wheel(cards) by {
            assert(r.order() == 3);
            assert(r == five);
            assert(present(rank_below(3, 0)) && present(rank_below(3, 1)) && present(
                rank_below(3, 2),
            ) && present(rank_below(3, 3)) && present(rank_below(3, 4)));
        }
    } else {
        lemma_best_row(cards, present, high - 1);
        assert(eval::run_to(cards, high) == tops_row(present)(top)) by {
            if eval::run_to(cards, high) {
                assert forall|k: int| 0 <= k < 5 implies present(
                    #[trigger] rank_below(top.order(), k),
                ) by {
                    assert(eval::times(cards, Rank::at(high - k)) > 0);
                }
            }
            if tops_row(present)(top) {
                assert forall|k: int| high - 4 <= k <= high implies eval::times(
                    cards,
                    #[trigger] Rank::at(k),
                ) > 0 by {
                    assert(present(rank_below(top.order(), high - k)));
                }
            }
        }
        assert forall|r: Rank| r.order() == high implies r == top by {}
    }
}

/// The row that is described is the highest.
proof fn lemma_row_told(
    cards: Seq<Card>,
    present: spec_fn(Rank) -> bool,
    main: Seq<Rank>,
)
    requires
        forall|r: Rank| #[trigger] present(r) <==> eval::times(cards, r) > 0,
        main == (match eval::straight_high(cards, 12) {
            Some(h) => seq![h],
            None => Seq::<Rank>::empty(),
        }),
    ensures
        are_highest(main, tops_row(present), 1),
        match eval::straight_high(cards, 12) {
            Some(h) => {
                let row = eval::straight_ranks(h);
                &&& row.len() == 5
                &&& forall|k: int| 0 <= k < 5 ==> #[trigger] row[k] == rank_below(h.order(), k)
                &&& eval::straight_low(h) == row[4]
            },
            None => true,
        },
{
    lemma_best_row(cards, present, 12);
    assert forall|r: Rank| #[trigger] tops_row(present)(r) && !main.contains(r) implies main.len()
        == 1 && forall|i: int| 0 <= i < main.len() ==> r.order() < (#[trigger] main[i]).order() by {
        assert(r.order() <= 12);
        let h = main[0];
        assert(main.contains(h));
        assert(Rank::at(r.order()) == r && Rank::at(h.order()) == h);
    }
    if let Some(h) = eval::straight_high(cards, 12) {
        let row = eval::straight_ranks(h);
        assert forall|k: int| 0 <= k < 5 implies #[trigger] row[k] == rank_below(h.order(), k) by {
            if h == Rank::Five {
                assert(k == 0 || k == 1 || k == 2 || k == 3 || k == 4);
            } else {
                assert(h.order() != 3) by {
                    assert(Rank::at(h.order()) == h);
                }
            }
        }
    }
}

/// Which ranks of a suit are among the cards.
proof fn lemma_flush_has(cards: Seq<Card>, s: Suit, r: Rank)
    requires
        eval::suit_of_flush(cards) == Some(s),
    ensures
        eval::times(eval::flush_cards(cards), r) > 0 <==> occurs_in(cards, s)(r),
        cards.no_duplicates() ==> eval::times(eval::flush_cards(cards), r) <= 1,
{
    let same = |c: Card| c;
    let c = Card { rank: r, suit: s };
    let flush = eval::flush_cards(cards);
    seqs::lemma_pick_from(cards, eval::of_suit(s), same);
    seqs::lemma_count_bounds(flush, eval::of_rank(r));
    if cards.contains(c) {
        let i = choose|i: int| 0 <= i < cards.len() && cards[i] == c;
        assert(eval::of_suit(s)(cards[i]));
        seqs::lemma_pick_has(cards, i, eval::of_suit(s), same);
        let j = choose|j: int| 0 <= j < flush.len() && flush[j] == c;
        seqs::lemma_count_positive(flush, j, eval::of_rank(r));
    }
    if eval::times(flush, r) > 0 {
        let j = seqs::lemma_count_witness(flush, eval::of_rank(r));
        assert(seqs::comes_from(cards, eval::of_suit(s), same, flush[j]));
        let i = choose|i: int|
            0 <= i < cards.len() && eval::of_suit(s)(#[trigger] cards[i]) && same(cards[i])
                == flush[j];
        assert(cards[i] == c);
    }
    if cards.no_duplicates() && eval::times(flush, r) >= 2 {
        seqs::lemma_pick_distinct(cards, eval::of_suit(s), same);
        let (a, b) = seqs::lemma_count_pair(flush, eval::of_rank(r));
        assert(seqs::comes_from(cards, eval::of_suit(s), same, flush[a]));
        assert(seqs::comes_from(cards, eval::of_suit(s), same, flush[b]));
        assert(flush[a] == c && flush[b] == c);
    }
}

/// Where no rank occurs twice, the ranks as often as they occur are the ranks held.
proof fn lemma_repeated_once(cards: Seq<Card>, i: int)
    requires
        0 <= i <= 13,
        forall|r: Rank| #[trigger] eval::times(cards, r) <= 1,
    ensures
        eval::ranks_repeated(cards, i) == eval::ranks_held(cards, i, 1, None, None),
    decreases i,
{
    if i > 0 {
        lemma_repeated_once(cards, i - 1);
        let r = Rank::at(i - 1);
        seqs::lemma_count_bounds(cards, eval::of_rank(r));
        assert(eval::times(cards, r) <= 1);
        assert(eval::ranks_repeated(cards, i) =~= eval::ranks_held(cards, i, 1, None, None));
    }
}

/// The description of a flush names its highest ranks.
proof fn lemma_flush_named(rank: HandRank, cards: Seq<Card>, s: Suit)
    requires
        rank is Flush,
        cards.len() <= 7,
        how_many_suited(cards, s) >= 5,
        cards.no_duplicates(),
    ensures
        ({
            let d = eval::description(rank, cards);
            let main = eval::up_to(eval::ranks_repeated(eval::flush_cards(cards), 13), 5);
            &&& are_highest(main, occurs_in(cards, s), 5)
            &&& names(d.primary, main, 0)
            &&& names_all(d.board, main)
        }),
{
    lemma_suited(cards, s);
    lemma_one_flush(cards, s);
    let flush = eval::flush_cards(cards);
    assert forall|r: Rank| #[trigger] eval::times(flush, r) <= 1 by {
        lemma_flush_has(cards, s, r);
    }
    lemma_repeated_once(flush, 13);
    let none = Seq::<Rank>::empty();
    lemma_highest(flush, 1, None, None, none, 5);
    let a = occurs(flush, 1, none);
    let b = occurs_in(cards, s);
    assert forall|r: Rank| #[trigger] b(r) == a(r) by {
        lemma_flush_has(cards, s, r);
        lemma_times(flush, r);
    }
    let main = eval::up_to(eval::ranks_repeated(flush, 13), 5);
    assert forall|i: int| 0 <= i < main.len() implies b(#[trigger] main[i]) by {
        assert(a(main[i]));
    }
    assert forall|r: Rank| #[trigger] b(r) && !main.contains(r) implies main.len() == 5
        && forall|i: int| 0 <= i < main.len() ==> r.order() < (#[trigger] main[i]).order() by {
        assert(a(r));
    }
}

/// A description names the ranks that make the category, and those that decide
/// between hands of it, the highest first.
pub proof fn law_descriptions_name_the_ranks_that_count(rank: HandRank, cards: Seq<Card>)
    requires
        cards.len() <= 7,
    ensures
        names_its_ranks(rank, cards, eval::description(rank, cards)),
        eval::description(rank, cards).category == rank.label()@,
{
    let d = eval::description(rank, cards);
    let any = Seq::<Rank>::empty();
    match rank {
        HandRank::HighCard(_) => {
            lemma_highest(cards, 1, None, None, any, 5);
            let main = eval::up_to(eval::ranks_held(cards, 13, 1, None, None), 5);
            assert(names_ranks(rank, cards, d, main, any));
        },
        HandRank::OnePair(_) => {
            lemma_kind_named(rank, cards, 2, 3);
        },
        HandRank::ThreeOfAKind(_) => {
            lemma_kind_named(rank, cards, 3, 2);
        },
        HandRank::FourOfAKind(_) => {
            lemma_kind_named(rank, cards, 4, 1);
        },
        HandRank::TwoPair(_) => {
            lemma_highest(cards, 2, None, None, any, 2);
            let all = eval::ranks_held(cards, 13, 2, None, None);
            let main = eval::up_to(all, 2);
            let high = eval::item_at(all, 0);
            let low = eval::item_at(all, 1);
            assert forall|r: Rank| #[trigger] main.contains(r) <==> (high == Some(r) || low
                == Some(r)) by {
                lemma_first_items(all, 2, r);
            }
            lemma_highest(cards, 1, high, low, main, 1);
            let rest = eval::up_to(eval::ranks_held(cards, 13, 1, high, low), 1);
            assert(names_ranks(rank, cards, d, main, rest));
        },
        HandRank::FullHouse(_) => {
            lemma_highest(cards, 3, None, None, any, 1);
            let all = eval::ranks_held(cards, 13, 3, None, None);
            let main = eval::up_to(all, 1);
            let high = eval::item_at(all, 0);
            assert forall|r: Rank| #[trigger] main.contains(r) <==> (high == Some(r)
                || None::<Rank> == Some(r)) by {
                lemma_first_items(all, 1, r);
            }
            lemma_highest(cards, 2, high, None, main, 1);
            let rest = eval::up_to(eval::ranks_held(cards, 13, 2, high, None), 1);
            assert(names_ranks(rank, cards, d, main, rest));
        },
        HandRank::Straight(_) => {
            let present = occurs(cards, 1, any);
            assert forall|r: Rank| #[trigger] present(r) <==> eval::times(cards, r) > 0 by {
                lemma_times(cards, r);
            }
            let main = match eval::straight_high(cards, 12) {
                Some(h) => seq![h],
                None => Seq::<Rank>::empty(),
            };
            lemma_row_told(cards, present, main);
            assert(names_ranks(rank, cards, d, main, any));
        },
        HandRank::Flush(_) => {
            let main = eval::up_to(eval::ranks_repeated(eval::flush_cards(cards), 13), 5);
            assert forall|s: Suit|
                #[trigger] how_many_suited(cards, s) >= 5 && cards.no_duplicates() implies {
                &&& are_highest(main, occurs_in(cards, s), 5)
                &&& names(d.primary, main, 0)
                &&& names_all(d.board, main)
            } by {
                lemma_flush_named(rank, cards, s);
            }
            assert(names_ranks(rank, cards, d, main, any));
        },
        HandRank::StraightFlush(_) => {
            let flush = eval::flush_cards(cards);
            let main = match eval::straight_high(flush, 12) {
                Some(h) => seq![h],
                None => Seq::<Rank>::empty(),
            };
            let held = occurs(flush, 1, any);
            assert forall|r: Rank| #[trigger] held(r) <==> eval::times(flush, r) > 0 by {
                lemma_times(flush, r);
            }
            lemma_row_told(flush, held, main);
            assert forall|s: Suit| #[trigger] how_many_suited(cards, s) >= 5 implies are_highest(
                main,
                tops_row(occurs_in(cards, s)),
                1,
            ) by {
                lemma_suited(cards, s);
                lemma_one_flush(cards, s);
                assert forall|r: Rank| #[trigger] occurs_in(cards, s)(r) <==> eval::times(flush, r)
                    > 0 by {
                    lemma_flush_has(cards, s, r);
                }
                lemma_row_told(flush, occurs_in(cards, s), main);
            }
            assert(names_ranks(rank, cards, d, main, any));
        },
    }
}

proof fn lemma_first_items(all: Seq<Rank>, n: int, r: Rank)
    requires
        1 <= n <= 2,
    ensures
        eval::up_to(all, n).contains(r) <==> (eval::item_at(all, 0) == Some(r) || (n == 2
            && eval::item_at(all, 1) == Some(r))),
{
    let first = eval::up_to(all, n);
    if first.contains(r) {
        let i = choose|i: int| 0 <= i < first.len() && first[i] == r;
        assert(i == 0 || i == 1);
        assert(all[i] == r);
    }
    if eval::item_at(all, 0) == Some(r) {
        assert(first[0] == r);
    }
    if n == 2 && eval::item_at(all, 1) == Some(r) {
        assert(first[1] == r);
    }
}

/// The description of a pair, of three or of four of a kind.
proof fn lemma_kind_named(rank: HandRank, cards: Seq<Card>, least: int, most: int)
    requires
        rank is OnePair && least == 2 && most == 3 || rank is ThreeOfAKind && least == 3 && most
            == 2 || rank is FourOfAKind && least == 4 && most == 1,
    ensures
        names_its_ranks(rank, cards, eval::description(rank, cards)),
{
    let d = eval::description(rank, cards);
    let any = Seq::<Rank>::empty();
    lemma_highest(cards, least, None, None, any, 1);
    let all = eval::ranks_held(cards, 13, least, None, None);
    let main = eval::up_to(all, 1);
    let high = eval::item_at(all, 0);
    assert forall|r: Rank| #[trigger] main.contains(r) <==> (high == Some(r) || None::<Rank>
        == Some(r)) by {
        lemma_first_items(all, 1, r);
    }
    lemma_highest(cards, 1, high, None, main, most);
    let rest = eval::up_to(eval::ranks_held(cards, 13, 1, high, None), most);
    assert(names_ranks(rank, cards, d, main, rest));
}

} // verus!
