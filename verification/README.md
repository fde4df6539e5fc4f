# transopt

Heuristics and a simplex table for the transportation problem, verified with
Verus.

A task is a grid of cells: row `i` is a supply node, column `j` a demand
node, and cell `(i, j)` holds the supply left in its row, the demand left in
its column, the unit cost of shipping from `i` to `j` and the quantity
assigned to it.

- `src/parse.rs` reads a task stored as three space-separated strings
  (`name_qty` supply and demand tokens, `s_d_cost` cost tokens).
- `src/grid.rs` is the grid, an `ndarray` array seen as rows of cells.
- `src/assign.rs` fills one cell, or many in a given order.
- `src/greedy.rs`, `src/dpreference.rs` and `src/fogel.rs` are the greedy,
  double-preference and Vogel heuristics.
- `src/conservation.rs` and `src/balance.rs` state and prove that filling
  conserves supply and demand, cell by cell and in the reported totals
  (`src/totals.rs`).
- `src/simplex.rs` lays out a simplex table on an `sprs` sparse matrix and
  runs pivoting rounds; `src/transport.rs` builds the table of a task.
- `app/` is the program: it reads the task from Redis, runs the greedy
  heuristic and HiGHS, and prints the totals.
