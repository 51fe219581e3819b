# engine

A Texas Hold'em engine whose rules are proved with Verus. Given players, a
button and a source of cards, `GameHand` plays one hand from the blinds to the
settled pots. It does no I/O.

## Layout

- `src/` is the library; every function in it is verified, but for the outside
  calls named below.
  - `card`, `hand`, `player`, `action`: cards, streets, chips, positions, actions.
  - `rng`, `deck`: the ChaCha20 generator and the Fisher-Yates shuffle.
  - `eval`, `telling`: hand ranks (from `rs_poker`), their order, and hands in words.
  - `sidepot`, `round`: main and side pots; one betting round.
  - `game`: a whole hand. `game::model` says what each step makes of a hand;
    the methods of `GameHand` are proved to do exactly that. `game::pots` and
    `game::outcome` say who gets what.
  - `game::laws`, `game::account_laws`, `game::blind_laws`: what holds of a hand
    as a whole, and of the cards of one that is dealt elsewhere.
  - `seqs`, `text`: sums, counts and orders of sequences; decimal notation.
- `tests/` runs the library.
- `app/` holds the data types with serde's traits, and the errors as standard
  errors, each with conversions to the library's types and back.

## What is trusted

The outside calls stand behind small functions whose contracts are believed:
in `rng`, ChaCha20 (`rand_chacha`) and the system's randomness (`rand`); in
`eval`, the card sets and ranks of `rs_poker`. Each says what it claims.
