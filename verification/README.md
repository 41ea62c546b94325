# boxbopper

A Sokoban-style game (push every box into a hole) with a level maker and a solver,
written in Verus: the rules of the game, the level reader, the solver and the level maker
are verified against their contracts.

## Layout

- `src/` — the verified library:
  - `obj`, `vector`, `stackstack`, `shrunkpath`, `bits` — objects, points, moves and
    compact stores of moves (2 bits a move), and a tree of moves sharing common beginnings;
  - `level`, `parse`, `builtins`, `textread` — levels, their text form and the built-in levels;
  - `readback` — the proof that a level's text reads back as the level;
  - `game` — a game in play: options, queued moves, pushes, winning, and what a key does;
  - `pathnodemap`, `solve`, `unsolve`, `generate`, `tool` — the search: walk maps, pushes
    and pulls, the solver, the level maker (random levels played backwards) and its choices;
    the random levels and names are stated as functions of the numbers drawn;
  - `replay` — a solution the solver returns, played in a game move by move, is accepted
    and wins, with as many pushes as the solution's depth; and every way to win a game of a
    level with as many boxes as holes is a solution in the solver's moves;
  - `keysearch` — why the solver misses no solution by walks and pushes worth trying and
    returns a shortest one, while a depth holds no more states than it is allowed;
  - `deadlock` — why the pushes the solver leaves out (onto a cell where no box may stand,
    or jamming two boxes against a wall) lose no solution: every solution begins with one
    by walks and pushes worth trying, so the solver's result is a shortest solution of all;
  - `pullsearch` — the level maker's search, depth by depth, and the contenders it ends with;
  - `boxcount` — the moves of the game keep the number of boxes;
  - `strutil`, `dgens` — text helpers (characters of a string, decimal numbers) and
    small generic helpers over slices;
  - `backup` — the first console game, with its own objects and compass moves;
  - `textview` — a level drawn as coloured text pieces.
- `app/` — the programs: the console game, the terminal game, the first console game and
  the level tool (`make`, `solve`, `speed_test`), with the terminal, file and timing work.
- `tests/` — tests of the library.
