//! The deck.

use crate::card::{Card, Rank, Suit};
use crate::rng::{PokerRng, CYCLE};
use crate::rng;
use crate::seqs;
use vstd::prelude::*;

verus! {

/// Why no card could be dealt.
#[derive(Debug, Clone, Copy, PartialEq, Eq, Structural)]
pub enum DeckError {
    /// All cards have been dealt.
    Exhausted,
}

impl DeckError {
    /// The error in words.
    pub fn to_string(&self) -> (s: String)
        ensures
            s@ == "deck is exhausted"@,
    {
        String::from_str("deck is exhausted")
    }
}

/// A deck, dealt from the top.
#[derive(Debug)]
pub struct Deck {
    /// All the cards in the order in which they are dealt.
    cards: Vec<Card>,
    /// How many have been dealt.
    next: usize,
}

/// A deck as a mathematical value.
#[verifier::ext_equal]
pub struct DeckModel {
    pub cards: Seq<Card>,
    pub next: int,
}

impl DeckModel {
    /// No more cards have been dealt than there are.
    pub open spec fn wf(self) -> bool {
        0 <= self.next <= self.cards.len()
    }

    /// How many cards can still be dealt.
    pub open spec fn left(self) -> int {
        self.cards.len() - self.next
    }

    /// The deck after `n` more cards, or as many as there are.
    pub open spec fn dealt(self, n: int) -> DeckModel {
        if n <= self.left() {
            DeckModel { next: self.next + n, ..self }
        } else {
            DeckModel { next: self.cards.len() as int, ..self }
        }
    }
}

impl View for Deck {
    type V = DeckModel;

    closed spec fn view(&self) -> DeckModel {
        DeckModel { cards: self.cards@, next: self.next as int }
    }
}

impl Clone for Deck {
    fn clone(&self) -> (r: Self)
        ensures
            r@ == self@,
    {
        Deck { cards: self.cards.clone(), next: self.next }
    }
}

/// The suit at place `i` in canonical order.
pub open spec fn suit_at(i: int) -> Suit {
    if i == 0 {
        Suit::Spades
    } else if i == 1 {
        Suit::Hearts
    } else if i == 2 {
        Suit::Diamonds
    } else {
        Suit::Clubs
    }
}

/// The 52 cards before shuffling: by rank, then by suit.
pub open spec fn fresh_cards() -> Seq<Card> {
    Seq::new(52, |i: int| Card { rank: Rank::at(i / 4), suit: suit_at(i % 4) })
}

/// The numbers below this one are spread evenly over the remainders modulo `n`.
pub open spec fn even_limit(n: int) -> int {
    u64::MAX - (u64::MAX as int) % n
}

/// The word at place `k` of a stream: its bytes from `8 * k` on, as a number.
pub open spec fn word_at(stream: Map<nat, u8>, k: nat) -> u64 {
    vstd::bytes::spec_u64_from_le_bytes(Seq::new(8, |i: int| stream[8 * k + i as nat]))
}

/// What is left of a stream once `k` words are taken.
pub open spec fn words_left(stream: Map<nat, u8>, k: nat) -> Map<nat, u8> {
    Map::new(|i: nat| true, |i: nat| stream[8 * k + i])
}

/// The word at place `k` does not favour small numbers below `n`.
pub open spec fn fits(stream: Map<nat, u8>, n: int, k: nat) -> bool {
    word_at(stream, k) < even_limit(n)
}

/// The first word of a stream that fits is the one at place `k`.
pub open spec fn fits_first(stream: Map<nat, u8>, n: int, k: nat) -> bool {
    fits(stream, n, k) && forall|j: nat| j < k ==> !#[trigger] fits(stream, n, j)
}

/// The place of the word that a draw takes: the first that fits. In a stream
/// that comes round without one there is none, and a draw stops after a round.
pub open spec fn draw_place(stream: Map<nat, u8>, n: int) -> nat {
    if exists|k: nat| fits(stream, n, k) {
        choose|k: nat| fits_first(stream, n, k)
    } else {
        CYCLE as nat
    }
}

/// A number below `n` drawn from a stream, and the stream that is left.
pub open spec fn drawn(stream: Map<nat, u8>, n: int) -> (int, Map<nat, u8>) {
    let k = draw_place(stream, n);
    (word_at(stream, k) as int % n, words_left(stream, k + 1))
}

/// `cards` with the places `i` and `j` exchanged.
pub open spec fn exchanged(cards: Seq<Card>, i: int, j: int) -> Seq<Card> {
    cards.update(i, cards[j]).update(j, cards[i])
}

/// The Fisher-Yates shuffle of the places up to `i`, and the stream that is left.
pub open spec fn shuffled(cards: Seq<Card>, i: int, stream: Map<nat, u8>) -> (
    Seq<Card>,
    Map<nat, u8>,
)
    decreases i,
{
    if i <= 0 {
        (cards, stream)
    } else {
        let d = drawn(stream, i + 1);
        shuffled(exchanged(cards, i, d.0), i - 1, d.1)
    }
}

/// A draw is below its limit.
pub proof fn lemma_drawn(stream: Map<nat, u8>, n: int)
    requires
        n > 0,
    ensures
        0 <= drawn(stream, n).0 < n,
{
}

/// A draw takes the first word that fits, passes over the words before it, and
/// takes none behind it, as long as the stream holds such a word.
pub proof fn law_draw_takes_first_fit(stream: Map<nat, u8>, n: int, k: nat)
    requires
        fits_first(stream, n, k),
    ensures
        drawn(stream, n) == (word_at(stream, k) as int % n, words_left(stream, k + 1)),
{
    let c = choose|c: nat| fits_first(stream, n, c);
    assert(fits_first(stream, n, c));
    if c < k {
        assert(!fits(stream, n, c));
    } else if k < c {
        assert(!fits(stream, n, k));
    }
}

/// In a stream that comes round every word is one of the first round.
proof fn lemma_first_round(stream: Map<nat, u8>, k: nat) -> (j: nat)
    requires
        rng::cyclic(stream),
    ensures
        j < CYCLE,
        word_at(stream, j) == word_at(stream, k),
    decreases k,
{
    if k >= CYCLE {
        let p = (k - CYCLE) as nat;
        let a = Seq::new(8, |i: int| stream[8 * k + i as nat]);
        let b = Seq::new(8, |i: int| stream[8 * p + i as nat]);
        assert forall|i: int| 0 <= i < 8 implies a[i] == b[i] by {
            assert(rng::next_round(stream, 8 * p + i as nat) == stream[8 * p + i as nat]);
        }
        assert(a =~= b);
        lemma_first_round(stream, p)
    } else {
        k
    }
}

/// Where no word of a whole round fits, none does.
proof fn lemma_nothing_fits(stream: Map<nat, u8>, n: int)
    requires
        rng::cyclic(words_left(stream, 1)),
        forall|k: nat| k <= CYCLE ==> !#[trigger] fits(stream, n, k),
    ensures
        forall|k: nat| !#[trigger] fits(stream, n, k),
{
    let rest = words_left(stream, 1);
    assert forall|k: nat| !#[trigger] fits(stream, n, k) by {
        if k > 0 {
            let p = (k - 1) as nat;
            lemma_later_word(stream, p);
            let j = lemma_first_round(rest, p);
            lemma_later_word(stream, j);
            assert(!fits(stream, n, j + 1));
        }
    }
}

proof fn lemma_later_word(stream: Map<nat, u8>, k: nat)
    ensures
        word_at(words_left(stream, 1), k) == word_at(stream, k + 1),
{
    let rest = words_left(stream, 1);
    assert(Seq::new(8, |i: int| rest[8 * k + i as nat]) =~= Seq::new(
        8,
        |i: int| stream[8 * (k + 1) + i as nat],
    ));
}

/// Taking one more word of a stream.
proof fn lemma_next_word(stream: Map<nat, u8>, k: nat)
    ensures
        rng::rest_of(words_left(stream, k)) == words_left(stream, k + 1),
        vstd::bytes::spec_u64_from_le_bytes(rng::first_eight(words_left(stream, k))) == word_at(
            stream,
            k,
        ),
        rng::rest_of(stream) == words_left(stream, 1),
        vstd::bytes::spec_u64_from_le_bytes(rng::first_eight(stream)) == word_at(stream, 0),
{
    assert(rng::rest_of(words_left(stream, k)) =~= words_left(stream, k + 1));
    assert(rng::first_eight(words_left(stream, k)) =~= Seq::new(
        8,
        |i: int| stream[8 * k + i as nat],
    ));
    assert(rng::rest_of(stream) =~= words_left(stream, 1));
    assert(rng::first_eight(stream) =~= Seq::new(8, |i: int| stream[8 * 0 + i as nat]));
}

/// Shuffling loses no card and doubles none.
pub proof fn lemma_shuffled(cards: Seq<Card>, i: int, stream: Map<nat, u8>)
    requires
        i < cards.len(),
        seqs::distinct(cards),
    ensures
        shuffled(cards, i, stream).0.len() == cards.len(),
        seqs::distinct(shuffled(cards, i, stream).0),
        forall|c: Card| shuffled(cards, i, stream).0.contains(c) <==> cards.contains(c),
    decreases i,
{
    if i > 0 {
        let d = drawn(stream, i + 1);
        lemma_drawn(stream, i + 1);
        let next = exchanged(cards, i, d.0);
        assert forall|a: int, b: int|
            #![trigger next[a], next[b]]
            0 <= a < b < next.len() implies next[a] != next[b] by {
            let a2 = if a == i {
                d.0
            } else if a == d.0 {
                i
            } else {
                a
            };
            let b2 = if b == i {
                d.0
            } else if b == d.0 {
                i
            } else {
                b
            };
            assert(next[a] == cards[a2] && next[b] == cards[b2]);
        }
        assert forall|c: Card| next.contains(c) <==> cards.contains(c) by {
            if next.contains(c) {
                let k = choose|k: int| 0 <= k < next.len() && next[k] == c;
                assert(k == i ==> cards[d.0] == c);
                assert(k == d.0 && k != i ==> cards[i] == c);
                assert(k != d.0 && k != i ==> cards[k] == c);
            }
            if cards.contains(c) {
                let k = choose|k: int| 0 <= k < cards.len() && cards[k] == c;
                assert(k == i ==> next[d.0] == c);
                assert(k == d.0 ==> next[i] == c);
                assert(k != d.0 && k != i ==> next[k] == c);
            }
        }
        lemma_shuffled(next, i - 1, d.1);
        let out = shuffled(cards, i, stream).0;
        assert forall|c: Card| out.contains(c) <==> cards.contains(c) by {
            assert(out.contains(c) <==> next.contains(c));
        }
    }
}

/// The fresh deck holds every card once.
pub proof fn lemma_fresh_cards()
    ensures
        fresh_cards().len() == 52,
        seqs::distinct(fresh_cards()),
        forall|c: Card| #[trigger] fresh_cards().contains(c),
{
    let f = fresh_cards();
    assert forall|c: Card| #[trigger] f.contains(c) by {
        let i = c.rank.order() * 4 + c.suit.order();
        assert(f[i] == c);
    }
}

/// Whatever the stream, the shuffled deck holds each of the 52 cards exactly once.
pub proof fn law_shuffle_keeps_every_card(stream: Map<nat, u8>)
    ensures
        shuffled(fresh_cards(), 51, stream).0.len() == 52,
        seqs::distinct(shuffled(fresh_cards(), 51, stream).0),
        forall|c: Card| #[trigger] shuffled(fresh_cards(), 51, stream).0.contains(c),
{
    lemma_fresh_cards();
    lemma_shuffled(fresh_cards(), 51, stream);
    let out = shuffled(fresh_cards(), 51, stream).0;
    assert forall|c: Card| #[trigger] out.contains(c) by {
        assert(fresh_cards().contains(c));
    }
}

/// `after` is `before` with the cards at `i` and `j` exchanged.
pub open spec fn is_exchange(before: Seq<Card>, after: Seq<Card>, i: int, j: int) -> bool {
    &&& 0 <= i < before.len()
    &&& 0 <= j < before.len()
    &&& after.len() == before.len()
    &&& after[i] == before[j]
    &&& after[j] == before[i]
    &&& forall|k: int| 0 <= k < before.len() && k != i && k != j ==> #[trigger] after[k]
        == before[k]
}

/// The word at place `w` is the first of the stream `before` that is below the
/// largest multiple of `n` that a word can hold; `d` is its remainder modulo
/// `n`; and `after` is what comes behind that word.
pub open spec fn is_draw(
    before: Map<nat, u8>,
    after: Map<nat, u8>,
    n: int,
    d: int,
    w: nat,
) -> bool {
    &&& word_at(before, w) < u64::MAX - (u64::MAX as int) % n
    &&& forall|v: nat|
        v < w ==> #[trigger] word_at(before, v) >= u64::MAX - (u64::MAX as int) % n
    &&& d == word_at(before, w) as int % n
    &&& forall|b: nat| #[trigger] after[b] == before[8 * (w + 1) + b]
}

/// Some word of the stream is below the largest multiple of `n`.
pub open spec fn can_draw(stream: Map<nat, u8>, n: int) -> bool {
    exists|w: nat| #[trigger] word_at(stream, w) < u64::MAX - (u64::MAX as int) % n
}

/// How `cards` became another deck, one exchange after the other: from the
/// place `i` down to place 1, each place is exchanged with a place drawn from
/// those up to it, by the next word of the stream that favours none of them.
#[verifier::ext_equal]
pub struct ShuffleTrace {
    pub decks: Seq<Seq<Card>>,
    pub streams: Seq<Map<nat, u8>>,
    pub draws: Seq<int>,
}

impl ShuffleTrace {
    /// The step that exchanges place `i` leads from the deck and stream at `k`
    /// to those after it.
    pub open spec fn step(self, k: int, i: int) -> bool {
        &&& 0 <= self.draws[k] <= i
        &&& is_exchange(self.decks[k], self.decks[k + 1], i, self.draws[k])
        &&& can_draw(self.streams[k], i + 1) ==> exists|w: nat|
            #[trigger] is_draw(
                self.streams[k],
                self.streams[k + 1],
                i + 1,
                self.draws[k],
                w,
            )
    }

    /// The trace leads from `cards` and `stream` to `out`, through `i` steps.
    pub open spec fn leads(
        self,
        cards: Seq<Card>,
        stream: Map<nat, u8>,
        i: int,
        out: (Seq<Card>, Map<nat, u8>),
    ) -> bool {
        &&& self.decks.len() == i + 1
        &&& self.streams.len() == i + 1
        &&& self.draws.len() == i
        &&& self.decks[0] == cards
        &&& self.streams[0] == stream
        &&& self.decks[i] == out.0
        &&& self.streams[i] == out.1
        &&& forall|k: int| 0 <= k < i ==> #[trigger] self.step(k, i - k)
    }
}

proof fn lemma_is_draw(stream: Map<nat, u8>, n: int)
    requires
        n > 0,
        can_draw(stream, n),
    ensures
        exists|w: nat| #[trigger] is_draw(stream, drawn(stream, n).1, n, drawn(stream, n).0, w),
{
    let some = choose|w: nat| #[trigger]
        word_at(stream, w) < u64::MAX - (u64::MAX as int) % n;
    assert(fits(stream, n, some));
    lemma_first_fit(stream, n, some);
    let w = choose|k: nat| fits_first(stream, n, k);
    assert(fits_first(stream, n, w));
    assert forall|v: nat| v < w implies #[trigger] word_at(stream, v) >= u64::MAX - (
    u64::MAX as int) % n by {
        assert(!fits(stream, n, v));
    }
    assert(is_draw(stream, drawn(stream, n).1, n, drawn(stream, n).0, w));
}

/// Where a word fits, there is a first one.
proof fn lemma_first_fit(stream: Map<nat, u8>, n: int, k: nat)
    requires
        fits(stream, n, k),
    ensures
        exists|w: nat| fits_first(stream, n, w),
    decreases k,
{
    if exists|j: nat| j < k && #[trigger] fits(stream, n, j) {
        let j = choose|j: nat| j < k && #[trigger] fits(stream, n, j);
        lemma_first_fit(stream, n, j);
    } else {
        assert(fits_first(stream, n, k));
    }
}

proof fn lemma_trace(cards: Seq<Card>, i: int, stream: Map<nat, u8>) -> (t: ShuffleTrace)
    requires
        0 <= i < cards.len(),
    ensures
        t.leads(cards, stream, i, shuffled(cards, i, stream)),
    decreases i,
{
    if i == 0 {
        ShuffleTrace { decks: seq![cards], streams: seq![stream], draws: Seq::empty() }
    } else {
        let d = drawn(stream, i + 1);
        let next = exchanged(cards, i, d.0);
        lemma_drawn(stream, i + 1);
        let rest = lemma_trace(next, i - 1, d.1);
        let t = ShuffleTrace {
            decks: seq![cards] + rest.decks,
            streams: seq![stream] + rest.streams,
            draws: seq![d.0] + rest.draws,
        };
        assert forall|k: int| 0 <= k < i implies #[trigger] t.step(k, i - k) by {
            if k == 0 {
                assert(t.decks[1] == rest.decks[0]);
                assert(t.streams[1] == rest.streams[0]);
                assert(is_exchange(cards, next, i, d.0));
                if can_draw(stream, i + 1) {
                    lemma_is_draw(stream, i + 1);
                }
            } else {
                assert(rest.step(k - 1, (i - 1) - (k - 1)));
                assert(t.decks[k] == rest.decks[k - 1] && t.decks[k + 1] == rest.decks[k]);
                assert(t.streams[k] == rest.streams[k - 1] && t.streams[k + 1]
                    == rest.streams[k]);
                assert(t.draws[k] == rest.draws[k - 1]);
            }
        }
        assert(t.decks[i] == rest.decks[i - 1]);
        assert(t.streams[i] == rest.streams[i - 1]);
        t
    }
}

/// The 52 cards by rank, the twos first, and within a rank as spades, hearts,
/// diamonds, clubs.
pub open spec fn in_new_order(cards: Seq<Card>) -> bool {
    &&& cards.len() == 52
    &&& forall|r: Rank|
        cards[4 * #[trigger] r.order()] == (Card { rank: r, suit: Suit::Spades }) && cards[4
            * r.order() + 1] == (Card { rank: r, suit: Suit::Hearts }) && cards[4 * r.order() + 2]
            == (Card { rank: r, suit: Suit::Diamonds }) && cards[4 * r.order() + 3] == (Card {
            rank: r,
            suit: Suit::Clubs,
        })
}

/// `out` comes of the new deck and `stream` by 51 exchanges.
pub open spec fn is_shuffle(stream: Map<nat, u8>, out: (Seq<Card>, Map<nat, u8>)) -> bool {
    exists|t: ShuffleTrace|
        in_new_order(t.decks[0]) && #[trigger] t.leads(t.decks[0], stream, 51, out)
}

/// A deck is shuffled by 51 exchanges, one for every place from the last down
/// to the second: the card at place `i` changes places with the one at a place
/// drawn from the `i + 1` places up to it. Each draw takes the first word of
/// the stream that favours none of the places.
pub proof fn law_shuffle_exchanges_every_place(stream: Map<nat, u8>)
    ensures
        is_shuffle(stream, shuffled(fresh_cards(), 51, stream)),
{
    let t = lemma_trace(fresh_cards(), 51, stream);
    assert(in_new_order(t.decks[0]));
}

/// Different draws give different decks: from the order of a shuffled deck every
/// one of the draws can be told. So each order of the deck comes of one sequence of draws.
pub proof fn law_order_tells_the_draws(
    a: ShuffleTrace,
    b: ShuffleTrace,
    cards: Seq<Card>,
    i: int,
    k: int,
)
    requires
        seqs::distinct(cards),
        0 <= k < i < cards.len(),
        a.leads(cards, a.streams[0], i, (a.decks[i], a.streams[i])),
        b.leads(cards, b.streams[0], i, (b.decks[i], b.streams[i])),
        a.decks[i] == b.decks[i],
    ensures
        a.draws[k] == b.draws[k],
        a.decks[k] == b.decks[k],
    decreases k,
{
    if k > 0 {
        law_order_tells_the_draws(a, b, cards, i, k - 1);
        assert(a.step(k - 1, i - (k - 1)) && b.step(k - 1, i - (k - 1)));
        assert(a.decks[k] =~= b.decks[k]);
    }
    lemma_trace_distinct(a, cards, i, k);
    assert(a.step(k, i - k) && b.step(k, i - k));
    lemma_place_stays(a, cards, i, k + 1);
    lemma_place_stays(b, cards, i, k + 1);
    assert(a.decks[k + 1][i - k] == a.decks[i][i - k]);
    assert(b.decks[k + 1][i - k] == b.decks[i][i - k]);
    assert(a.decks[k][a.draws[k]] == a.decks[k][b.draws[k]]);
}

proof fn lemma_trace_distinct(t: ShuffleTrace, cards: Seq<Card>, i: int, k: int)
    requires
        seqs::distinct(cards),
        0 <= k <= i < cards.len(),
        t.leads(cards, t.streams[0], i, (t.decks[i], t.streams[i])),
    ensures
        seqs::distinct(t.decks[k]),
        t.decks[k].len() == cards.len(),
    decreases k,
{
    if k > 0 {
        lemma_trace_distinct(t, cards, i, k - 1);
        assert(t.step(k - 1, i - (k - 1)));
        let p = i - (k - 1);
        let d = t.draws[k - 1];
        let was = t.decks[k - 1];
        let now = t.decks[k];
        assert forall|a: int, b: int| #![trigger now[a], now[b]] 0 <= a < b < now.len(
        ) implies now[a] != now[b] by {
            let a2 = if a == p {
                d
            } else if a == d {
                p
            } else {
                a
            };
            let b2 = if b == p {
                d
            } else if b == d {
                p
            } else {
                b
            };
            assert(now[a] == was[a2] && now[b] == was[b2]);
            assert(a2 != b2);
        }
    }
}

/// A place that has been exchanged stays as it is.
proof fn lemma_place_stays(t: ShuffleTrace, cards: Seq<Card>, i: int, k: int)
    requires
        1 <= k <= i < cards.len(),
        t.leads(cards, t.streams[0], i, (t.decks[i], t.streams[i])),
        t.decks[k].len() == cards.len(),
    ensures
        t.decks[i].len() == cards.len(),
        t.decks[i][i - (k - 1)] == t.decks[k][i - (k - 1)],
    decreases i - k,
{
    lemma_places_stay(t, cards, i, k, i - (k - 1));
}

proof fn lemma_places_stay(t: ShuffleTrace, cards: Seq<Card>, i: int, k: int, p: int)
    requires
        0 <= k <= i < cards.len(),
        i - k < p < cards.len(),
        t.leads(cards, t.streams[0], i, (t.decks[i], t.streams[i])),
        t.decks[k].len() == cards.len(),
    ensures
        t.decks[i].len() == cards.len(),
        t.decks[i][p] == t.decks[k][p],
    decreases i - k,
{
    if k < i {
        assert(t.step(k, i - k));
        assert(t.decks[k + 1][p] == t.decks[k][p]);
        lemma_places_stay(t, cards, i, k + 1, p);
    }
}

/// A generator keyed with its recorded seed, as one from the operating system
/// is, deals a deck that can be dealt again: another generator keyed with that
/// seed shuffles alike.
pub proof fn law_recorded_seed_deals_again(first: PokerRng, again: PokerRng)
    requires
        first.stream() == rng::key_stream(first.recorded()@),
        again.stream() == rng::key_stream(first.recorded()@),
    ensures
        shuffled(fresh_cards(), 51, first.stream()) == shuffled(fresh_cards(), 51, again.stream()),
{
}

/// Two generators made from the same number shuffle alike.
pub proof fn law_same_number_same_deck(first: PokerRng, again: PokerRng, number: u64)
    requires
        first.stream() == rng::number_stream(number),
        again.stream() == rng::number_stream(number),
    ensures
        shuffled(fresh_cards(), 51, first.stream()) == shuffled(fresh_cards(), 51, again.stream()),
{
}

impl Deck {
    /// What holds of every deck.
    pub open spec fn wf(&self) -> bool {
        self@.wf()
    }

    /// A deck shuffled with bytes from `rng`.
    pub fn new(rng: &mut PokerRng) -> (d: Self)
        ensures
            d.wf(),
            d@ == (DeckModel { cards: shuffled(fresh_cards(), 51, old(rng).stream()).0, next: 0 }),
            final(rng).stream() == shuffled(fresh_cards(), 51, old(rng).stream()).1,
            is_shuffle(old(rng).stream(), (d@.cards, final(rng).stream())),
            final(rng).recorded() == old(rng).recorded(),
    {
        proof {
            law_shuffle_exchanges_every_place(rng.stream());
        }
        let mut cards: Vec<Card> = Vec::new();
        let mut k: usize = 0;
        while k < 52
            invariant
                k <= 52,
                cards@ == fresh_cards().take(k as int),
            decreases 52 - k,
        {
            let suit = match k % 4 {
                0 => Suit::Spades,
                1 => Suit::Hearts,
                2 => Suit::Diamonds,
                _ => Suit::Clubs,
            };
            cards.push(Card::new(Rank::from_index(k / 4), suit));
            assert(cards@ =~= fresh_cards().take(k + 1));
            k = k + 1;
        }
        assert(cards@ =~= fresh_cards());
        let mut i: usize = 51;
        while i > 0
            invariant
                i <= 51,
                cards@.len() == 52,
                rng.recorded() == old(rng).recorded(),
                shuffled(cards@, i as int, rng.stream()) == shuffled(
                    fresh_cards(),
                    51,
                    old(rng).stream(),
                ),
            decreases i,
        {
            let ghost s = rng.stream();
            proof {
                lemma_drawn(s, i + 1);
            }
            let j: usize = rng_range(rng, i + 1);
            exchange(&mut cards, i, j);
            i = i - 1;
        }
        Deck { cards, next: 0 }
    }

    /// A deck in a given order; `cards[0]` is dealt first. Whether the cards
    /// are distinct is the caller's affair.
    pub fn from_cards(cards: Vec<Card>) -> (d: Self)
        ensures
            d.wf(),
            d@ == (DeckModel { cards: cards@, next: 0 }),
    {
        Deck { cards, next: 0 }
    }

    /// All the cards in the order in which they are dealt, dealt or not.
    pub fn cards(&self) -> (r: &[Card])
        ensures
            r@ == self@.cards,
    {
        self.cards.as_slice()
    }

    /// Deals the top card.
    pub fn deal(&mut self) -> (r: Result<Card, DeckError>)
        requires
            old(self).wf(),
        ensures
            final(self).wf(),
            final(self)@ == old(self)@.dealt(1),
            r == if old(self)@.left() > 0 {
                Ok::<Card, DeckError>(old(self)@.cards[old(self)@.next])
            } else {
                Err(DeckError::Exhausted)
            },
    {
        if self.next >= self.cards.len() {
            assert(self@ =~= old(self)@.dealt(1));
            return Err(DeckError::Exhausted);
        }
        let card = self.cards[self.next];
        self.next = self.next + 1;
        Ok(card)
    }

    /// How many cards can still be dealt.
    pub fn remaining(&self) -> (n: usize)
        requires
            self.wf(),
        ensures
            n == self@.left(),
    {
        self.cards.len() - self.next
    }
}

/// The number below `n` that the word `w` stands for; `None` where the word
/// would favour small numbers.
pub fn pick_below(w: u64, n: u64) -> (r: Option<u64>)
    requires
        n > 0,
    ensures
        r == if w < even_limit(n as int) {
            Some((w % n) as u64)
        } else {
            None
        },
{
    if w < u64::MAX - (u64::MAX % n) {
        Some(w % n)
    } else {
        None
    }
}

/// Exchanges the cards at `i` and `j`.
pub fn exchange(cards: &mut Vec<Card>, i: usize, j: usize)
    requires
        i < old(cards)@.len(),
        j < old(cards)@.len(),
    ensures
        final(cards)@ == exchanged(old(cards)@, i as int, j as int),
{
    let a = cards[i];
    let b = cards[j];
    cards[i] = b;
    cards[j] = a;
}

/// A number below `n`, each as likely as the other, by passing over the words
/// that would favour small numbers.
fn rng_range(rng: &mut PokerRng, n: usize) -> (r: usize)
    requires
        n > 1,
    ensures
        r < n,
        r == drawn(old(rng).stream(), n as int).0,
        final(rng).stream() == drawn(old(rng).stream(), n as int).1,
        final(rng).recorded() == old(rng).recorded(),
{
    let m: u64 = n as u64;
    let ghost s = old(rng).stream();
    proof {
        lemma_next_word(s, 0);
    }
    let mut w: u64 = rng.next_word();
    let mut k: u128 = 0;
    while k < CYCLE && pick_below(w, m).is_none()
        invariant
            m == n,
            n > 1,
            k <= CYCLE,
            w == word_at(s, k as nat),
            rng.stream() == words_left(s, (k + 1) as nat),
            rng.recorded() == old(rng).recorded(),
            forall|j: nat| j < k ==> !#[trigger] fits(s, n as int, j),
        decreases CYCLE - k,
    {
        assert(!fits(s, n as int, k as nat));
        proof {
            lemma_next_word(s, (k + 1) as nat);
        }
        w = rng.next_word();
        k = k + 1;
    }
    proof {
        if fits(s, n as int, k as nat) {
            law_draw_takes_first_fit(s, n as int, k as nat);
        } else {
            lemma_nothing_fits(s, n as int);
        }
    }
    (w % m) as usize
}

/// Dealing takes cards off the top, as many as are asked for or left, and
/// changes no card.
pub proof fn law_dealing_takes_from_the_top(d: DeckModel, n: int)
    requires
        d.wf(),
        n >= 0,
    ensures
        d.dealt(n).cards == d.cards,
        d.dealt(n).next == if d.next + n < d.cards.len() {
            d.next + n
        } else {
            d.cards.len() as int
        },
{
}

} // verus!
