# game-ev-engine

Exact outcome weights, expected values and stakes for baccarat and blackjack, verified with Verus.

- `src/` is the verified library. Cards and shoes, the drawing rules, the enumeration of all
  deals of a shoe, the bets and their payouts, the choice of bets and stakes, the replay of
  recorded rounds, the generator of random shoes, blackjack, and what a page shows.
  Expected values and amounts are computed in a number type that the caller picks; contracts
  say which operations are applied to which operands.
- `tests/` runs the library with floating-point numbers.
- `app/` holds the command line tools and the functions a page calls: files, CSV rows, JSON.

Laws that relate several functions are public proof functions, next to the functions they
speak of; the laws of side bets are in `src/baccarat/laws.rs`, those of generated texts in
`src/baccarat/generated.rs`, and those of a whole replay in `src/baccarat/reconcile.rs`.
