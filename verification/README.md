# sudoku_solver

A sudoku solver whose logic is verified with Verus.

For every cell the solver keeps a table of excluded digits. Each round excludes
in every cell the digits present in its row, column and box, then fills the
cells with a single digit left; a round fails when a unit holds a digit twice,
when a cell has no digit left, or when a cell's single digit already stands in
its row, column or box. When no cell is forced it guesses a digit for
the cell with the most excluded digits and solves the resulting board; when
that fails, the guessed digit is excluded for the cell.

Layout:

- `src/board.rs`: the board and the exclusion table.
- `src/units.rs`: the 27 rows, columns and boxes as index arithmetic.
- `src/solver.rs`: exclusion, filling, guessing, `try_solve`, and the proofs that
  a returned board is full, keeps its givens and (for consistent givens) is a
  solution, and that a refused board has no solution.
- `src/io.rs`: reading a board from a line and writing it as a line or a grid.
- `src/cli.rs`: the command-line options and the per-line decisions of the
  `print` and `solve` commands.
- `src/search.rs`: the search as a spec function of the board and the table, which
  `try_solve`'s result is proved to equal, with the proof that it has one answer.
- `src/text.rs`, `src/count.rs`: text building and counting lemmas.
- `app/main.rs`: argument parsing, files and terminal output.
