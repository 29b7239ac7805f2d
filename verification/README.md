# card_mentat

A poker hand simulator as a verified library. Cards are dealt from a shuffled
shoe of one or more decks, each player's best five-card hand is found from their
hole cards and the board (with optional wild cards and a range of how many hole
cards a hand must use), and the winners are named.

## Layout

- `src/card.rs` – ranks, suits, cards and their notation (`AS`, `10H`), read in
  either case with whitespace around it allowed.
- `src/deck.rs` – the shoe: fresh decks in order, shuffling, dealing.
- `src/hand.rs` – hand categories, the evaluation of a set of cards with wild
  cards (each wild card stands for whichever card makes the best hand), combinations,
  and the laws of evaluation (a single deck never makes five of a kind; for five
  cards, their order is irrelevant and marking some of them wild never lowers the
  hand).
- `src/player.rs` – a player's best hand over all allowed splits of hole and
  board cards.
- `src/rules.rs` – table rules, their validation, presets, explicit settings laid
  over a preset, the builder, and hole-card ranges in text (`0..=2`, `2..2`, `2-2`, `2`).
- `src/simulator.rs` – dealing hands, evaluating them, naming the winners, and the
  table in writing.
- `src/text.rs` – decimal notation, whitespace trimming and reading numbers.
- `app/main.rs` – the command-line program: options, parallel simulation, output.

Every function in `src/` carries a contract checked by Verus, except the two thin
wrappers around `rand` (the thread's generator and the slice shuffle), whose
contracts are trusted: the shuffle is the one call whose outcome is only described
(a permutation of the shoe).

## Usage

```
card_mentat [--game texas|omaha|five-card-draw] [--players N] [-H HOLE]
            [--community-cards N] [--decks N] [--wild CARD]...
            [--hole-cards-in-play RANGE] [-n SIMULATIONS]
```
