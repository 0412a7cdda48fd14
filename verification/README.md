# sudoku

A 9x9 sudoku solver that works by inference alone, with its behaviour proved
in Verus.

Two inferences fill cells:

- a cell whose row, column and block leave it a single candidate gets that digit;
- a digit that only one empty cell of a row, a column or a block can still take
  goes into that cell.

The solver repeats them until no empty cell is left or neither writes a digit.
It never guesses, so hard puzzles may be left partly empty.

What is proved, besides the absence of panics and overflow:

- every digit written is forced, so it is the digit of that cell in every
  solution of the puzzle, and a board the solver fills completely is the one
  solution;
- the given digits never change, each update fills one empty cell, and the
  solver stops either with a full board or at a board where neither inference
  applies;
- the run itself is pinned down: `trace::solve_run` states, pass by pass, the
  reports, the order of the digits written, the iteration count and the last
  board, and `solve` is proved to produce exactly those;
- the sets of missing digits behave as sets: intersection, difference, counting
  and their text;
- reading a puzzle from the bytes of a CSV file gives, row by row, the cells of
  the records that the `csv` crate reads (`input::grid_from_csv`).

Layout:

- `src/`: the verified library (`misset`, `board`, `rules`, `trace`, `solver`, `text`, `input`).
- `tests/`: tests of the library.
- `app/`: a terminal program that reads the bytes of `input.csv` (or of the file
  named on the command line), hands them to the library, prints the board as the solver works, and sends each written
  digit as a `solve_digit` event with a JSON payload.

The input file has one row per line: nine comma-separated fields, or
whitespace-separated cells in a single field. A digit from 1 to 9 is a given;
`?` or anything else is an empty cell. Lines starting with `#` are comments.
