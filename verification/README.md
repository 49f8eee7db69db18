# sudoku_solver

A sudoku solver that works the way a person does: candidate elimination on
bitmasks, with no brute-force search. Each cell's candidates are a `u16` in
which bit `n` stands for digit `n + 1`; rows, columns and boxes keep the
digits they still lack, and masks mark the units that are not yet solved.

The techniques apply cheapest first, and the run starts over whenever one of
them makes progress:

1. simple elimination (`solve_all_simples`),
2. exclusive options (`solve_exclusive_options`),
3. ray casting, or pointing pairs and triples (`exclude_by_ray_casting`),
4. testing a value on a copy (`exclude_by_testing`).

The library is written in Verus and verified.

- `src/bits.rs`: masks as sets of digits, counting and lowest-bit facts.
- `src/board.rs`: the model of a puzzle under way (`Board`), its invariant,
  writing a digit, and the progress measure that bounds the solver.
- `src/rules.rs`: what each technique does to a board, as spec functions, and
  the whole run (`solve_outcome`).
- `src/solver.rs`: the executable solver, proved to compute those functions.
- `src/laws.rs`: the solver's guarantees: the logical techniques never lose a
  solution, no digit is ever changed or written twice into a unit, no lost
  candidate comes back, and a completed grid is a solved sudoku (the unique
  solution, for a puzzle that has one). Conversely, every puzzle that some
  solved sudoku agrees with is completed, and a run that leaves a row
  unsolved stops where no technique makes progress.
- `src/text.rs`: text pictures of the digits and of the candidates.
- `app/main.rs`: the program that solves every `puzzle,solution` line of
  `sudoku.csv` in parallel, and the C entry point for a benchmark harness.
