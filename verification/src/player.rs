//! Players, chips and table positions.

use crate::seqs;
use crate::text::decimal;
use crate::text;
use vstd::prelude::*;

verus! {

/// A player, by an opaque number.
#[derive(Debug, Clone, Copy, PartialEq, Eq, Structural, Hash)]
pub struct PlayerId(pub u64);

impl PlayerId {
    pub fn new(id: u64) -> (r: Self)
        ensures
            r == PlayerId(id),
    {
        PlayerId(id)
    }

    pub fn inner(self) -> (r: u64)
        ensures
            r == self.0,
    {
        self.0
    }

    /// The number in decimal notation.
    pub fn to_string(&self) -> (s: String)
        ensures
            s@ == text::decimal_chars(self.0 as nat),
    {
        decimal(self.0)
    }

    /// The number with the name of its type.
    pub open spec fn tag(self) -> Seq<char> {
        "PlayerId("@ + text::decimal_chars(self.0 as nat) + ")"@
    }

    /// The number with the name of its type, such as `PlayerId(7)`.
    pub fn tagged(&self) -> (s: String)
        ensures
            s@ == self.tag(),
    {
        let mut s = String::from_str("PlayerId(");
        s.append(decimal(self.0).as_str());
        s.append(")");
        s
    }
}

/// An amount of chips.
#[derive(Debug, Clone, Copy, PartialEq, Eq, Structural, PartialOrd, Ord, Hash)]
pub struct Chips(pub u32);

impl Chips {
    /// No chips.
    pub fn zero() -> (r: Self)
        ensures
            r == Chips(0),
    {
        Chips(0)
    }

    pub fn inner(self) -> (r: u32)
        ensures
            r == self.0,
    {
        self.0
    }

    /// Adds, stopping at the largest amount.
    pub fn saturating_add(self, other: Self) -> (r: Self)
        ensures
            r.0 == if self.0 + other.0 > u32::MAX {
                u32::MAX as int
            } else {
                self.0 + other.0
            },
    {
        Chips(self.0.saturating_add(other.0))
    }

    /// Subtracts; `None` if `other` is more than `self`.
    pub fn checked_sub(self, other: Self) -> (r: Option<Self>)
        ensures
            r == if other.0 > self.0 {
                None::<Chips>
            } else {
                Some(Chips((self.0 - other.0) as u32))
            },
    {
        match self.0.checked_sub(other.0) {
            Some(v) => Some(Chips(v)),
            None => None,
        }
    }

    /// Subtracts, stopping at zero.
    pub fn saturating_sub(self, other: Self) -> (r: Self)
        ensures
            r.0 == if other.0 > self.0 {
                0int
            } else {
                self.0 - other.0
            },
    {
        Chips(self.0.saturating_sub(other.0))
    }

    /// The amount in decimal notation.
    pub fn to_string(&self) -> (s: String)
        ensures
            s@ == text::decimal_chars(self.0 as nat),
    {
        decimal(self.0 as u64)
    }
}

impl From<u32> for Chips {
    fn from(v: u32) -> (r: Self) {
        Chips(v)
    }
}

impl vstd::std_specs::convert::FromSpecImpl<u32> for Chips {
    open spec fn obeys_from_spec() -> bool {
        true
    }

    open spec fn from_spec(v: u32) -> Self {
        Chips(v)
    }
}

impl From<Chips> for u32 {
    fn from(c: Chips) -> (r: u32) {
        c.0
    }
}

impl vstd::std_specs::convert::FromSpecImpl<Chips> for u32 {
    open spec fn obeys_from_spec() -> bool {
        true
    }

    open spec fn from_spec(c: Chips) -> u32 {
        c.0
    }
}

/// A seat at the table.
#[derive(Debug, Clone, Copy, PartialEq, Eq, Structural, Hash)]
pub struct Seat(pub u8);

impl Seat {
    pub fn new(seat: u8) -> (r: Self)
        ensures
            r == Seat(seat),
    {
        Seat(seat)
    }

    pub fn inner(self) -> (r: u8)
        ensures
            r == self.0,
    {
        self.0
    }

    /// The seat number in decimal notation.
    pub fn to_string(&self) -> (s: String)
        ensures
            s@ == text::decimal_chars(self.0 as nat),
    {
        decimal(self.0 as u64)
    }
}

/// A player's position relative to the dealer button.
#[derive(Debug, Clone, Copy, PartialEq, Eq, Structural, Hash)]
pub enum Position {
    /// The button (heads-up, the button is the small blind instead).
    Dealer,
    SmallBlind,
    BigBlind,
    /// Under the gun: first to act before the flop.
    Utg,
    UtgPlus1,
    UtgPlus2,
    Lojack,
    /// Two seats before the button.
    Hijack,
    /// One seat before the button.
    Cutoff,
}

/// The position of the seat `dist` places after the button among `n` seats.
pub open spec fn position_at(dist: int, n: int) -> Position {
    if n == 2 {
        if dist == 0 {
            Position::SmallBlind
        } else {
            Position::BigBlind
        }
    } else if dist == 0 {
        Position::Dealer
    } else if dist == 1 {
        Position::SmallBlind
    } else if dist == 2 {
        Position::BigBlind
    } else if n >= 6 && dist == n - 1 {
        Position::Cutoff
    } else if n >= 6 && dist == n - 2 {
        Position::Hijack
    } else if dist == 3 {
        Position::Utg
    } else if n == 5 {
        Position::Hijack
    } else if dist == 4 {
        Position::UtgPlus1
    } else if dist == 5 {
        Position::UtgPlus2
    } else {
        Position::Lojack
    }
}

/// The test for the seat number `seat`.
pub open spec fn is_seat(seat: u8) -> spec_fn(u8) -> bool {
    |s: u8| s == seat
}

/// The position that [`Position::for_seat`] gives.
pub open spec fn seat_position(seat: u8, dealer_seat: u8, active: Seq<u8>) -> Position {
    let n = active.len() as int;
    let dealer_rank = seqs::first_index(active, is_seat(dealer_seat));
    let seat_rank = seqs::first_index(active, is_seat(seat));
    if n <= 1 || dealer_rank == n || seat_rank == n {
        Position::Dealer
    } else if seat_rank >= dealer_rank {
        position_at(seat_rank - dealer_rank, n)
    } else {
        position_at(seat_rank + n - dealer_rank, n)
    }
}

/// The index of the first `seat` in `active`, or its length.
fn rank_of(active: &[u8], seat: u8) -> (r: usize)
    ensures
        r == seqs::first_index(active@, is_seat(seat)),
        r <= active@.len(),
{
    let mut i: usize = 0;
    while i < active.len()
        invariant
            i <= active@.len(),
            forall|j: int| 0 <= j < i ==> !is_seat(seat)(#[trigger] active@[j]),
        decreases active@.len() - i,
    {
        if active[i] == seat {
            proof {
                seqs::lemma_first_index_is(active@, i as int, is_seat(seat));
            }
            return i;
        }
        i = i + 1;
    }
    proof {
        seqs::lemma_first_index_is(active@, i as int, is_seat(seat));
    }
    i
}

impl Position {
    /// The label of [`Position::short_label`].
    pub open spec fn label(self) -> &'static str {
        match self {
            Position::Utg => "UTG",
            Position::UtgPlus1 => "UTG+1",
            Position::UtgPlus2 => "UTG+2",
            Position::Lojack => "LJ",
            Position::Hijack => "HJ",
            Position::Cutoff => "CO",
            Position::Dealer => "BTN",
            Position::SmallBlind => "SB",
            Position::BigBlind => "BB",
        }
    }

    /// The usual English abbreviation.
    pub fn short_label(&self) -> (s: &'static str)
        ensures
            s@ == self.label()@,
    {
        match self {
            Position::Utg => "UTG",
            Position::UtgPlus1 => "UTG+1",
            Position::UtgPlus2 => "UTG+2",
            Position::Lojack => "LJ",
            Position::Hijack => "HJ",
            Position::Cutoff => "CO",
            Position::Dealer => "BTN",
            Position::SmallBlind => "SB",
            Position::BigBlind => "BB",
        }
    }

    /// The position of `seat`, given the dealer's seat and the seats in play
    /// in table order. Seat numbers need not be contiguous. A seat that is not
    /// in play, and any seat where the dealer's is not, is reported as the
    /// dealer.
    pub fn for_seat(seat: u8, dealer_seat: u8, active_seats: &[u8]) -> (p: Position)
        ensures
            p == seat_position(seat, dealer_seat, active_seats@),
    {
        let n: usize = active_seats.len();
        let dealer_rank: usize = rank_of(active_seats, dealer_seat);
        let seat_rank: usize = rank_of(active_seats, seat);
        if n <= 1 || dealer_rank == n || seat_rank == n {
            return Position::Dealer;
        }
        let dist: usize = if seat_rank >= dealer_rank {
            seat_rank - dealer_rank
        } else {
            n - (dealer_rank - seat_rank)
        };
        if n == 2 {
            return if dist == 0 {
                Position::SmallBlind
            } else {
                Position::BigBlind
            };
        }
        match dist {
            0 => Position::Dealer,
            1 => Position::SmallBlind,
            2 => Position::BigBlind,
            d if n >= 6 && d == n - 1 => Position::Cutoff,
            d if n >= 6 && d == n - 2 => Position::Hijack,
            3 => Position::Utg,
            _ if n == 5 => Position::Hijack,
            4 => Position::UtgPlus1,
            5 => Position::UtgPlus2,
            _ => Position::Lojack,
        }
    }
}

/// With at most nine distinct seats in play, the button among them, no two
/// seats have the same position.
pub proof fn law_positions_distinct(a: u8, b: u8, dealer_seat: u8, active: Seq<u8>)
    requires
        2 <= active.len() <= 9,
        seqs::distinct(active),
        active.contains(dealer_seat),
        active.contains(a),
        active.contains(b),
        a != b,
    ensures
        seat_position(a, dealer_seat, active) != seat_position(b, dealer_seat, active),
{
    seqs::lemma_first_index(active, is_seat(a));
    seqs::lemma_first_index(active, is_seat(b));
    seqs::lemma_first_index(active, is_seat(dealer_seat));
    let ia = seqs::first_index(active, is_seat(a));
    let ib = seqs::first_index(active, is_seat(b));
    let id = seqs::first_index(active, is_seat(dealer_seat));
    let ka = choose|k: int| 0 <= k < active.len() && active[k] == a;
    let kb = choose|k: int| 0 <= k < active.len() && active[k] == b;
    let kd = choose|k: int| 0 <= k < active.len() && active[k] == dealer_seat;
    assert(ia <= ka && ib <= kb && id <= kd);
    assert(ia != ib);
}

/// Seats are named by how far they are after the button, going round the seats
/// in play. `i` is where the dealer sits, and `j` where `seat` is.
pub proof fn law_positions_count_from_the_button(
    seat: u8,
    dealer_seat: u8,
    active: Seq<u8>,
    i: int,
    j: int,
)
    requires
        0 <= i < active.len(),
        0 <= j < active.len(),
        active[i] == dealer_seat,
        active[j] == seat,
        forall|k: int| 0 <= k < i ==> active[k] != dealer_seat,
        forall|k: int| 0 <= k < j ==> active[k] != seat,
    ensures
        ({
            let n = active.len() as int;
            let after = if j >= i {
                j - i
            } else {
                j - i + n
            };
            let p = seat_position(seat, dealer_seat, active);
            &&& p is Dealer <==> (after == 0 && n != 2)
            &&& p is SmallBlind <==> (after == 1 && n >= 3 || after == 0 && n == 2)
            &&& p is BigBlind <==> (after == 2 || after == 1 && n == 2)
            &&& p is Utg <==> after == 3
            &&& p is UtgPlus1 <==> (after == 4 && n >= 7)
            &&& p is UtgPlus2 <==> (after == 5 && n >= 8)
            &&& p is Lojack <==> 6 <= after < n - 2
            &&& p is Hijack <==> (after == n - 2 && n >= 6 || after == 4 && n == 5)
            &&& p is Cutoff <==> (after == n - 1 && n >= 6)
        }),
{
    seqs::lemma_first_index_is(active, i, is_seat(dealer_seat));
    seqs::lemma_first_index_is(active, j, is_seat(seat));
}

/// A seat that is not in play is called the dealer, and so is every seat where
/// the dealer's is not in play.
pub proof fn law_strange_seats_are_called_the_dealer(seat: u8, dealer_seat: u8, active: Seq<u8>)
    requires
        !active.contains(seat) || !active.contains(dealer_seat),
    ensures
        seat_position(seat, dealer_seat, active) is Dealer,
{
    seqs::lemma_first_index(active, is_seat(seat));
    seqs::lemma_first_index(active, is_seat(dealer_seat));
}

/// Different players have different tags.
pub proof fn law_tags_differ(a: PlayerId, b: PlayerId)
    requires
        a.tag() == b.tag(),
    ensures
        a == b,
{
    let x = text::decimal_chars(a.0 as nat);
    let y = text::decimal_chars(b.0 as nat);
    text::lemma_same_part("PlayerId("@, x, y, ")"@);
    text::law_decimal_reads_back(a.0 as nat);
    text::law_decimal_reads_back(b.0 as nat);
}

} // verus!
