# day_games

Verified pieces of a collection of small games, written in Verus and proved against their
contracts, together with the shared kit the games use for seeds, save keys and lifecycle
hooks.

What the library holds differs from game to game:

- **2048, Sirtet** (a falling-block stacker) **and Breakout**: their rules and integer state —
  moves, merges, spawns, undo, the bag and the kicks, clears, the wall, scoring, combos, lives,
  the decisions that close a physics step, and saving and restoring. Breakout's ball and paddle
  physics run on floating point and are not part of the library.
- **Mines, Pipes, Reversi, Sudoku, Charades and Solitaire**: only their input and bookkeeping
  rules — which report of a touch acts (Mines), what each key does, Pipes' move records,
  Charades' phases and motion queue, Solitaire's rank labels and per-mode stats. The boards and
  rules of these games are not here.
- **Block Blast**: nothing; its rules live entirely in its board model.

## Layout

- `src/` — the verified library, one module per game plus:
  - `rng.rs`: the xorshift generator every game draws from;
  - `keys.rs`: key-name matching and cursor steps on square boards;
  - `gamekit.rs`: seeds (and reading a pinned seed), save keys, and the registries of save,
    background and close hooks.
- `tests/` — executable tests of the library, one file per module.
- `app/` — the platform side: JSON save documents and their conversions, the preferences
  store, the clock and entropy behind seeds, the pinned-seed setting, lifecycle registration,
  and the frame-time arithmetic that runs on floating point.

## What is proved

Beyond each function's contract, the library states and proves laws such as: a 2048 slide
keeps the sum of the tiles and scores exactly the tiles its merges make; no move is possible
exactly on lines already packed against the wall; a 2048 game is stuck exactly when no slide
changes the board; a cancelled drag and an undo both give the board back; a save restores
what it saved, and a save taken mid-slide restores the board the slide would have landed;
Sirtet's bag deals each kind once per seven pieces, its controls only move the falling piece
where it fits, and a clear leaves no full row; one touch on the Mines board acts once whichever
report arrives first; cursor steps on a square board are undone by the opposite step; and
every seed handed out is odd.
