# set_game

A terminal implementation of the card game Set, with its rules verified by
Verus.

- `src/card.rs` — cards, the ordered deck, the Set rule, finding and
  counting Sets on a board, and the laws of the rule (every pair of cards
  has exactly one completion, the order of three cards does not matter).
- `src/game.rs` — the game state and its transitions (opening deal,
  claims in the default and the static mode), stated over a model of board
  and deck; `src/game_laws.rs` proves what every claim keeps: no card is
  lost or duplicated, three cards leave play per Set, a Set lies on the
  board unless the deck is empty, and static mode moves no card;
  `src/game_end.rs` proves that cards come and go in threes and that a game
  played Set after Set ends, within 27 claims for a new game, with an empty
  deck and no Set left.
- `src/set_listing.rs` — the list of all Sets on a board is unique, and
  emptying a slot takes away exactly the Sets that use it.
- `src/players.rs` — the team-mode roster: name validation, registration,
  lookup by name or unambiguous prefix, scores and the scoreboard (ties in
  alphabetical order, letter case aside).
- `src/turn.rs` — the decisions of one turn: a claim credited to a player,
  and a registration that turns team mode on.
- `src/display.rs` — palettes and terminal colors, card faces and the board
  layout.
- `src/cli.rs` — reading the command line, the lines typed during a game,
  card selections, durations.
- `src/text.rs` — text helpers: white space, trimming, ASCII case folding,
  alphabetical order, words, decimal numerals.
- `app/main.rs` — the terminal program: input, output, colors and clocks.
