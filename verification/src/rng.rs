//! The engine's source of random bytes.
//!
//! A [`PokerRng`] is a ChaCha20 generator together with the seed that it was
//! made from. What it gives is a function of that seed, so a recorded hand can
//! be dealt again.

use rand::{RngCore, SeedableRng};
use rand_chacha::ChaCha20Rng;
use vstd::prelude::*;

verus! {

/// A 256-bit seed.
pub type DeckSeed = [u8; 32];

/// The ChaCha20 generator of `rand_chacha`.
#[verifier::external_type_specification]
#[verifier::external_body]
pub struct ExChaCha20Rng(ChaCha20Rng);

/// The bytes that a generator holds in store, by their place in the order in
/// which it will give them out.
pub uninterp spec fn pending_bytes(rng: ChaCha20Rng) -> Map<nat, u8>;

/// The bytes of a fresh ChaCha20 generator with the key `key`.
pub uninterp spec fn key_stream(key: Seq<u8>) -> Map<nat, u8>;

/// The bytes of a fresh ChaCha20 generator seeded from the number `seed`.
pub uninterp spec fn number_stream(seed: u64) -> Map<nat, u8>;

/// What is left of a stream once its first eight bytes are taken.
pub open spec fn rest_of(stream: Map<nat, u8>) -> Map<nat, u8> {
    Map::new(|i: nat| true, |i: nat| stream[i + 8])
}

/// The first eight bytes of a stream.
pub open spec fn first_eight(stream: Map<nat, u8>) -> Seq<u8> {
    Seq::new(8, |i: int| stream[i as nat])
}

/// How many words of eight bytes a ChaCha20 stream holds before it comes round:
/// the blocks of 64 bytes are counted in 64 bits.
pub const CYCLE: u128 = 0x8_0000_0000_0000_0000;

/// The byte at place `i` of the next round of a stream.
pub open spec fn next_round(stream: Map<nat, u8>, i: nat) -> u8 {
    stream[i + 8 * CYCLE as nat]
}

/// The stream comes round after [`CYCLE`] words.
pub open spec fn cyclic(stream: Map<nat, u8>) -> bool {
    forall|i: nat| #[trigger] next_round(stream, i) == stream[i]
}

/// `ChaCha20Rng::from_seed` of `rand_chacha`: the generator whose key is `seed`,
/// at the start of its stream. The stream depends on the key alone.
#[verifier::external_body]
fn keyed(seed: DeckSeed) -> (r: ChaCha20Rng)
    ensures
        pending_bytes(r) == key_stream(seed@),
{
    ChaCha20Rng::from_seed(seed)
}

/// `ChaCha20Rng::seed_from_u64` of `rand_chacha`: a generator whose key is
/// expanded from a number, at the start of its stream. The stream depends on
/// the number alone.
#[verifier::external_body]
fn numbered(seed: u64) -> (r: ChaCha20Rng)
    ensures
        pending_bytes(r) == number_stream(seed),
{
    ChaCha20Rng::seed_from_u64(seed)
}

/// `ChaCha20Rng::fill_bytes` of `rand_chacha` on eight bytes: gives out the next
/// two words of the stream, and no more. The stream cycles at the end of its
/// period of 1 ZiB.
#[verifier::external_body]
fn take_eight(rng: &mut ChaCha20Rng) -> (b: [u8; 8])
    ensures
        b@ == first_eight(pending_bytes(*old(rng))),
        pending_bytes(*final(rng)) == rest_of(pending_bytes(*old(rng))),
        cyclic(pending_bytes(*final(rng))),
{
    let mut b = [0u8; 8];
    rng.fill_bytes(&mut b);
    b
}

/// `OsRng::fill_bytes` of `rand`: a seed from the operating system. Nothing
/// holds of every such seed. It panics where the system gives no random bytes.
#[verifier::external_body]
fn system_seed() -> DeckSeed {
    let mut seed = [0u8; 32];
    rand::rngs::OsRng.fill_bytes(&mut seed);
    seed
}

/// The seed that stands for the number `seed`: its eight bytes in little-endian
/// order, then zeros.
pub open spec fn widened(seed: u64) -> Seq<u8> {
    vstd::bytes::spec_u64_to_le_bytes(seed) + Seq::new(24, |i: int| 0u8)
}

/// Widens a number to a seed: its little-endian bytes, then zeros.
pub fn widen(seed: u64) -> (s: DeckSeed)
    ensures
        s@ == widened(seed),
{
    let bytes = vstd::bytes::u64_to_le_bytes(seed);
    let mut s: DeckSeed = [0u8; 32];
    let mut i: usize = 0;
    while i < 8
        invariant
            i <= 8,
            bytes@.len() == 8,
            s@.len() == 32,
            forall|k: int| 0 <= k < i ==> s@[k] == bytes@[k],
            forall|k: int| i <= k < 32 ==> s@[k] == 0,
        decreases 8 - i,
    {
        s[i] = bytes[i];
        i = i + 1;
    }
    assert(s@ =~= widened(seed));
    s
}

/// The low eight bytes of a widened seed give the number back.
pub proof fn law_widen_keeps_number(seed: u64)
    ensures
        widened(seed).len() == 32,
        vstd::bytes::spec_u64_from_le_bytes(widened(seed).take(8)) == seed,
{
    vstd::bytes::lemma_auto_spec_u64_to_from_le_bytes();
    assert(widened(seed).take(8) =~= vstd::bytes::spec_u64_to_le_bytes(seed));
}

/// A generator and the seed it was made from.
pub struct PokerRng {
    inner: ChaCha20Rng,
    seed: DeckSeed,
}

impl PokerRng {
    /// The bytes that the generator will give.
    pub closed spec fn stream(&self) -> Map<nat, u8> {
        pending_bytes(self.inner)
    }

    /// The seed on record.
    pub closed spec fn recorded(&self) -> DeckSeed {
        self.seed
    }

    /// A generator keyed with 32 random bytes from the operating system.
    pub fn from_os() -> (r: Self)
        ensures
            r.stream() == key_stream(r.recorded()@),
    {
        Self::from_seed_bytes(system_seed())
    }

    /// A generator that depends on a number, for tests. Its recorded seed is
    /// the widened number, which is not the key.
    pub fn from_seed(seed: u64) -> (r: Self)
        ensures
            r.stream() == number_stream(seed),
            r.recorded()@ == widened(seed),
    {
        PokerRng { inner: numbered(seed), seed: widen(seed) }
    }

    /// A generator keyed with `seed`.
    pub fn from_seed_bytes(seed: DeckSeed) -> (r: Self)
        ensures
            r.stream() == key_stream(seed@),
            r.recorded() == seed,
    {
        PokerRng { inner: keyed(seed), seed }
    }

    /// The seed that the generator was made from.
    pub fn seed(&self) -> (s: DeckSeed)
        ensures
            s == self.recorded(),
    {
        self.seed
    }

    /// The next eight bytes, as a little-endian number.
    pub fn next_word(&mut self) -> (w: u64)
        ensures
            w == vstd::bytes::spec_u64_from_le_bytes(first_eight(old(self).stream())),
            final(self).stream() == rest_of(old(self).stream()),
            cyclic(final(self).stream()),
            final(self).recorded() == old(self).recorded(),
    {
        let b = take_eight(&mut self.inner);
        vstd::bytes::u64_from_le_bytes(&b)
    }
}

} // verus!
