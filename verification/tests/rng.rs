use engine::deck::Deck;
use engine::rng::{widen, PokerRng, CYCLE};
use rand::{RngCore, SeedableRng};
use rand_chacha::ChaCha20Rng;

#[test]
fn widened_number_is_little_endian_then_zeros() {
    let s = widen(0x0102_0304_0506_0708);
    assert_eq!(&s[..8], &[8, 7, 6, 5, 4, 3, 2, 1]);
    assert!(s[8..].iter().all(|b| *b == 0));
    let mut low = [0u8; 8];
    low.copy_from_slice(&s[..8]);
    assert_eq!(u64::from_le_bytes(low), 0x0102_0304_0506_0708);
}

#[test]
fn recorded_seed_is_the_one_given() {
    assert_eq!(PokerRng::from_seed(77).seed(), widen(77));
    assert_eq!(PokerRng::from_seed_bytes([9u8; 32]).seed(), [9u8; 32]);
}

#[test]
fn zero_key_gives_the_published_chacha20_stream() {
    let mut rng = PokerRng::from_seed_bytes([0u8; 32]);
    assert_eq!(rng.next_word(), 0x903d_f1a0_ade0_b876);
    assert_eq!(rng.next_word(), 0x28bd_8653_e56a_5d40);
    assert_eq!(rng.seed(), [0u8; 32]);
}

#[test]
fn words_follow_one_another_in_the_stream() {
    let mut a = PokerRng::from_seed(5);
    let mut b = PokerRng::from_seed(5);
    let first: Vec<u64> = (0..20).map(|_| a.next_word()).collect();
    let again: Vec<u64> = (0..20).map(|_| b.next_word()).collect();
    assert_eq!(first, again);
    assert_ne!(first[0], first[1]);
}

#[test]
fn key_and_number_give_different_streams() {
    let mut number = PokerRng::from_seed(5);
    let mut key = PokerRng::from_seed_bytes(number.seed());
    assert_ne!(number.next_word(), key.next_word());
}

#[test]
fn recorded_seed_deals_the_same_deck_again() {
    let mut rng = PokerRng::from_os();
    let seed = rng.seed();
    let deck = Deck::new(&mut rng);
    let again = Deck::new(&mut PokerRng::from_seed_bytes(seed));
    assert_eq!(deck.cards(), again.cards());
}

#[test]
fn system_seeds_differ() {
    assert_ne!(PokerRng::from_os().seed(), PokerRng::from_os().seed());
}

#[test]
fn stream_comes_round_after_a_cycle() {
    let mut late = ChaCha20Rng::from_seed([3u8; 32]);
    late.set_word_pos(2 * (CYCLE - 1));
    let mut last = [0u8; 8];
    late.fill_bytes(&mut last);
    let mut again = PokerRng::from_seed_bytes([3u8; 32]);
    let mut b = [0u8; 8];
    for _ in 0..100 {
        late.fill_bytes(&mut b);
        let w = again.next_word();
        assert_eq!(u64::from_le_bytes(b), w);
        assert_ne!(b, last);
    }
}
