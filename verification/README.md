# gold_miner

A verified library for a small puzzle: a grid of random numbers is searched,
one cell per clock step, for the walk from the first cell of a row through all
columns (each step one column right and at most one row up or down) with the
largest sum.

- `src/` is the library, verified with Verus: the settings text (`settings`),
  the random grid (`random`), the searching head (`head`), walks and their sums
  (`walk`), what the search has passed and how many moves it has left
  (`search`), the labels it shows (`text`), the clock-driven state (`miner`) and
  the properties that span calls (`laws`).
- `app/` is the window: it reads `./settings.conf`, draws with ggez and feeds the
  clock to the library.
- `tests/` runs the library on concrete grids and texts.
