//! The solver: the puzzle state, how it is read, and the solving techniques.
use vstd::prelude::*;
use vstd::string::StringSliceAdditionalSpecFns;
use crate::bits::{
    bit, bit_count, lowest, group_bits, lemma_single_bit, lemma_lowest, lemma_clear_lowest,
    candidate_count, lemma_mask_test, lemma_zero_iff_no_bits, lemma_bits_ext,
};
use crate::rules::{
    lemma_solve_steps, lemma_test_choice, lemma_test_outcome, lemma_test_cells_skip, lemma_test_rows_skip, exclusive_mask,
    lemma_rays_skip, lemma_exclusive_skip_digits, lemma_exclusive_skip_units, lemma_single_holder,
    lemma_simples_skip_cell, lemma_simples_skip_cols, lemma_simples_skip_cols_to,
    lemma_simples_skip_rows,
};
use crate::board::{
    Board, empty_board, lemma_empty_board_wf, box_index, box_row, box_col, digit_mask, valid_cell,
    lemma_place_wf, lemma_place_cells, unit_cell, lemma_unit_geometry, lemma_open_holder_empty,
    lemma_set_cand_wf, lemma_solved_row_full, lemma_solved_column_full, measure, lemma_measure,
};
use crate::laws::{
    solvable, only_solution, is_solution, agrees, lemma_givens_consistent, lemma_unique_puzzle_is_solved,
    lemma_completed_run_is_the_solution, lemma_puzzle_is_solved,
};

verus! {

broadcast use group_bits;

/// All nine digits as candidates.
pub const ALL_OPTIONS: u16 = 511;

/// How a solved grid compares with the expected solution.
#[derive(PartialEq, Eq, Structural, Debug)]
pub enum SolveState {
    Correct,
    Incorrect,
    Incomplete,
}

/// The candidate digits of one cell: bit `n` means digit `n + 1` is still possible.
#[derive(Copy, Clone)]
pub struct Possibles {
    pub options: u16,
}

impl Possibles {
    /// Every digit possible.
    pub fn default() -> (p: Self)
        ensures
            p.options == ALL_OPTIONS,
    {
        Self { options: ALL_OPTIONS }
    }

    /// The candidates of a cell holding `value` (`0` for an empty cell).
    pub fn from(value: u8) -> (p: Self)
        requires
            value <= 16,
        ensures
            p.options == if value == 0 {
                ALL_OPTIONS
            } else {
                digit_mask(value as int)
            },
    {
        if value == 0 {
            return Self { options: ALL_OPTIONS };
        }
        Self { options: 1u16 << ((value - 1) as u16) }
    }

    /// The digit, when exactly one candidate is left.
    pub fn get_solution(&self) -> (r: Option<usize>)
        ensures
            r matches Some(v) ==> bit_count(self.options) == 1 && 1 <= v <= 16 && bit(
                self.options,
                v - 1,
            ),
            r is None ==> bit_count(self.options) != 1,
    {
        if candidate_count(self.options) != 1 {
            return None;
        }
        proof {
            lemma_single_bit(self.options);
        }
        Some(self.options.trailing_zeros() as usize + 1)
    }
}

/// The expected solution of a puzzle.
pub struct Solution {
    pub raster: [[u8; 9]; 9],
}

/// The grid text of 81 digits that starts at byte `start`.
pub open spec fn grid_digit(bytes: Seq<u8>, start: int, r: int, c: int) -> int {
    bytes[start + r * 9 + c] - 48
}

/// Bytes `start..start + 81` read as digits `0` to `16` (`'0'` to `'@'`).
pub open spec fn puzzle_text(bytes: Seq<u8>, start: int) -> bool {
    &&& 0 <= start
    &&& start + 81 <= bytes.len()
    &&& forall|k: int| start <= k < start + 81 ==> 48 <= #[trigger] bytes[k] <= 64
}

/// The board after the givens from position `k` on (in reading order) are
/// written into `b`.
pub open spec fn givens_from(bytes: Seq<u8>, start: int, k: int, b: Board) -> Board
    decreases 81 - k,
{
    if k >= 81 {
        b
    } else {
        let d = grid_digit(bytes, start, k / 9, k % 9);
        let b1 = if d > 0 {
            b.place(k / 9, k % 9, d)
        } else {
            b
        };
        givens_from(bytes, start, k + 1, b1)
    }
}

/// The board of the puzzle text at `start`: its givens written, in reading
/// order, into an empty grid.
pub open spec fn puzzle_board(bytes: Seq<u8>, start: int) -> Board {
    givens_from(bytes, start, 0, empty_board())
}

/// Bytes `start..start + 81` exist and none lies below `'0'`.
pub open spec fn solution_text(bytes: Seq<u8>, start: int) -> bool {
    &&& 0 <= start
    &&& start + 81 <= bytes.len()
    &&& forall|k: int| start <= k < start + 81 ==> 48 <= #[trigger] bytes[k]
}

/// Position of cell `(row, col)` in the grid text.
fn text_index(start: usize, row: usize, col: usize) -> (k: usize)
    requires
        row < 9,
        col < 9,
        start + 81 <= usize::MAX,
    ensures
        k == start + row * 9 + col,
        k < start + 81,
{
    start + row * 9 + col
}

impl View for Solution {
    type V = Seq<Seq<u8>>;

    open spec fn view(&self) -> Seq<Seq<u8>> {
        Seq::new(9, |r: int| self.raster[r]@)
    }
}

/// How a grid compares with a solution from cell `(r, c)` on, in reading
/// order: the first empty cell makes it incomplete, the first cell that
/// differs makes it incorrect.
pub open spec fn compare_from(grid: Seq<Seq<u8>>, solution: Seq<Seq<u8>>, r: int, c: int) -> SolveState
    decreases 9 - r, 9 - c,
{
    if r >= 9 {
        SolveState::Correct
    } else if c >= 9 {
        compare_from(grid, solution, r + 1, 0)
    } else if grid[r][c] == 0 {
        SolveState::Incomplete
    } else if grid[r][c] != solution[r][c] {
        SolveState::Incorrect
    } else {
        compare_from(grid, solution, r, c + 1)
    }
}

impl Solution {
    /// Reads the 81 digits of a solution.
    pub fn from(input: &str) -> (s: Self)
        requires
            solution_text(input.spec_bytes(), 0),
        ensures
            forall|r: int, c: int|
                valid_cell(r, c) ==> #[trigger] s.raster[r][c] == grid_digit(
                    input.spec_bytes(),
                    0,
                    r,
                    c,
                ),
    {
        Self::from_bytes(input.as_bytes(), 0)
    }

    /// Reads the 81 digits that start at byte `start`.
    pub fn from_bytes(bytes: &[u8], start: usize) -> (s: Self)
        requires
            solution_text(bytes@, start as int),
        ensures
            forall|r: int, c: int|
                valid_cell(r, c) ==> #[trigger] s.raster[r][c] == grid_digit(
                    bytes@,
                    start as int,
                    r,
                    c,
                ),
    {
        let mut raster = [[0u8; 9]; 9];
        let len = bytes.len();
        let mut row: usize = 0;
        while row < 9
            invariant
                len == bytes@.len(),
                solution_text(bytes@, start as int),
                row <= 9,
                forall|r: int, c: int|
                    0 <= r < row && 0 <= c < 9 ==> #[trigger] raster[r][c] == grid_digit(
                        bytes@,
                        start as int,
                        r,
                        c,
                    ),
            decreases 9 - row,
        {
            let mut col: usize = 0;
            while col < 9
                invariant
                    len == bytes@.len(),
                    solution_text(bytes@, start as int),
                    row < 9,
                    col <= 9,
                    forall|r: int, c: int|
                        0 <= r < row && 0 <= c < 9 ==> #[trigger] raster[r][c] == grid_digit(
                            bytes@,
                            start as int,
                            r,
                            c,
                        ),
                    forall|c: int|
                        0 <= c < col ==> #[trigger] raster[row as int][c] == grid_digit(
                            bytes@,
                            start as int,
                            row as int,
                            c,
                        ),
                decreases 9 - col,
            {
                let k = text_index(start, row, col);
                raster[row][col] = bytes[k] - 48u8;
                col = col + 1;
            }
            row = row + 1;
        }
        Self { raster }
    }
}


/// A puzzle under way: its digits, the candidates of each cell, the digits
/// still open in each row, column and box, and which of those are unsolved.
#[derive(Copy, Clone)]
pub struct Sudoku {
    pub raster: [[u8; 9]; 9],
    /// Bitmask: which rows still have unsolved cells
    pub unsolved_rows: u16,
    /// Bitmask: which columns still have unsolved cells
    pub unsolved_columns: u16,
    /// Bitmask: which 3×3 boxes still have unsolved cells
    pub unsolved_inner_boxes: u16,
    /// Remaining candidate digits for each row
    pub rows_options: [u16; 9],
    /// Remaining candidate digits for each column
    pub columns_options: [u16; 9],
    pub inner_box_options: [u16; 9],
    pub possibles_raster: [[Possibles; 9]; 9],
}

impl View for Sudoku {
    type V = Board;

    open spec fn view(&self) -> Board {
        Board {
            raster: Seq::new(9, |r: int| self.raster[r]@),
            possibles: Seq::new(
                9,
                |r: int| Seq::new(9, |c: int| self.possibles_raster[r][c].options),
            ),
            rows_options: self.rows_options@,
            columns_options: self.columns_options@,
            inner_box_options: self.inner_box_options@,
            unsolved_rows: self.unsolved_rows,
            unsolved_columns: self.unsolved_columns,
            unsolved_inner_boxes: self.unsolved_inner_boxes,
        }
    }
}

/// Each cell's candidates are all digits when it is empty, and its own digit
/// when it holds one.
pub open spec fn given_candidates(b: Board) -> bool {
    forall|r: int, c: int|
        #[trigger] valid_cell(r, c) ==> b.cand(r, c) == if b.digit(r, c) == 0 {
            ALL_OPTIONS
        } else {
            digit_mask(b.digit(r, c) as int)
        }
}

/// The candidate masks of a grid of `Possibles`.
pub open spec fn candidates_of(p: &[[Possibles; 9]; 9]) -> Seq<Seq<u16>> {
    Seq::new(9, |r: int| Seq::new(9, |c: int| p[r][c].options))
}

/// Some cell's candidates differ between the two boards.
pub open spec fn candidates_changed(b1: Board, b2: Board) -> bool {
    exists|r: int, c: int| #[trigger] valid_cell(r, c) && b2.cand(r, c) != b1.cand(r, c)
}

/// The mask of the units whose open digits are not all placed.
fn unsolved_mask(options: &[u16; 9]) -> (m: u16)
    ensures
        forall|j: int| #[trigger] bit(m, j) == (0 <= j < 9 && options[j] != 0),
{
    let mut m: u16 = 0;
    let mut i: usize = 0;
    while i < 9
        invariant
            i <= 9,
            forall|j: int| #[trigger] bit(m, j) == (0 <= j < i && options[j] != 0),
        decreases 9 - i,
    {
        if options[i] > 0 {
            m = m | (1u16 << (i as u16));
        }
        i = i + 1;
    }
    m
}

/// The `k`-th cell of unit `u`.
fn unit_cell_of(u: usize, k: usize) -> (cell: (usize, usize))
    requires
        u < 27,
        k < 9,
    ensures
        cell.0 == unit_cell(u as int, k as int).0,
        cell.1 == unit_cell(u as int, k as int).1,
        cell.0 < 9,
        cell.1 < 9,
{
    if u < 9 {
        (u, k)
    } else if u < 18 {
        (k, u - 9)
    } else {
        let bx = u - 18;
        ((bx / 3) * 3 + k / 3, (bx % 3) * 3 + k % 3)
    }
}

/// The bits of `base` found in neither `other1` nor `other2`.
pub fn exclusive_options(base: u16, other1: u16, other2: u16) -> (m: u16)
    ensures
        m == exclusive_mask(base, other1, other2),
{
    ((base ^ other1) & base) & ((base ^ other2) & base)
}

/// Index of the box of cell `(row, col)`.
pub fn inner_box_of(row: usize, col: usize) -> (bx: usize)
    requires
        row < 9,
        col < 9,
    ensures
        bx == box_index(row as int, col as int),
        bx < 9,
{
    (row / 3) * 3 + (col / 3)
}

impl Sudoku {
    /// The board invariant holds.
    pub open spec fn wf(&self) -> bool {
        self@.wf()
    }

    /// Reads a puzzle of 81 digits, `0` for an empty cell.
    pub fn from(input: &str) -> (s: Self)
        requires
            puzzle_text(input.spec_bytes(), 0),
        ensures
            s.wf(),
            s@ == puzzle_board(input.spec_bytes(), 0),
            forall|r: int, c: int|
                #[trigger] valid_cell(r, c) ==> s@.digit(r, c) == grid_digit(input.spec_bytes(), 0, r, c),
            given_candidates(s@),
    {
        Self::from_bytes(input.as_bytes(), 0)
    }

    /// Reads the puzzle of 81 digits that starts at byte `start`.
    pub fn from_bytes(bytes: &[u8], start: usize) -> (s: Self)
        requires
            puzzle_text(bytes@, start as int),
        ensures
            s.wf(),
            s@ == puzzle_board(bytes@, start as int),
            forall|r: int, c: int|
                #[trigger] valid_cell(r, c) ==> s@.digit(r, c) == grid_digit(bytes@, start as int, r, c),
            given_candidates(s@),
    {
        let len = bytes.len();
        let mut raster = [[0u8; 9]; 9];
        let mut possibles_raster: [[Possibles; 9]; 9] = [[Possibles::default(); 9]; 9];
        let mut rows_options = [ALL_OPTIONS; 9];
        let mut columns_options = [ALL_OPTIONS; 9];
        let mut inner_box_options = [ALL_OPTIONS; 9];
        let ghost mut gb = empty_board();
        proof {
            lemma_empty_board_wf();
            assert(Seq::new(9, |r: int| raster[r]@) =~~= gb.raster);
            assert(candidates_of(&possibles_raster) =~~= gb.possibles);
            assert(rows_options@ =~= gb.rows_options);
            assert(columns_options@ =~= gb.columns_options);
            assert(inner_box_options@ =~= gb.inner_box_options);
        }
        let mut row: usize = 0;
        while row < 9
            invariant
                len == bytes@.len(),
                puzzle_text(bytes@, start as int),
                row <= 9,
                gb.wf(),
                givens_from(bytes@, start as int, row * 9, gb) == puzzle_board(bytes@, start as int),
                Seq::new(9, |r: int| raster[r]@) == gb.raster,
                candidates_of(&possibles_raster) == gb.possibles,
                rows_options@ == gb.rows_options,
                columns_options@ == gb.columns_options,
                inner_box_options@ == gb.inner_box_options,
                forall|r: int, c: int|
                    #[trigger] valid_cell(r, c) ==> gb.digit(r, c) == if r < row {
                        grid_digit(bytes@, start as int, r, c)
                    } else {
                        0
                    },
                given_candidates(gb),
            decreases 9 - row,
        {
            let mut col: usize = 0;
            while col < 9
                invariant
                    len == bytes@.len(),
                    puzzle_text(bytes@, start as int),
                    row < 9,
                    col <= 9,
                    gb.wf(),
                    givens_from(bytes@, start as int, row * 9 + col, gb) == puzzle_board(
                        bytes@,
                        start as int,
                    ),
                    Seq::new(9, |r: int| raster[r]@) == gb.raster,
                    candidates_of(&possibles_raster) == gb.possibles,
                    rows_options@ == gb.rows_options,
                    columns_options@ == gb.columns_options,
                    inner_box_options@ == gb.inner_box_options,
                    forall|r: int, c: int|
                        #[trigger] valid_cell(r, c) ==> gb.digit(r, c) == if r < row || (r == row && c
                            < col) {
                            grid_digit(bytes@, start as int, r, c)
                        } else {
                            0
                        },
                    given_candidates(gb),
                decreases 9 - col,
            {
                let k = text_index(start, row, col);
                let val = bytes[k] - 48u8;
                let ghost gb_before = gb;
                proof {
                    let kk = row * 9 + col;
                    assert(kk / 9 == row && kk % 9 == col);
                }
                assert(valid_cell(row as int, col as int));
                assert(gb.digit(row as int, col as int) == 0);
                raster[row][col] = val;
                if val > 0 {
                    let mask: u16 = 1u16 << ((val - 1) as u16);
                    let bx = inner_box_of(row, col);
                    possibles_raster[row][col] = Possibles::from(val);
                    rows_options[row] = rows_options[row] & (ALL_OPTIONS ^ mask);
                    columns_options[col] = columns_options[col] & (ALL_OPTIONS ^ mask);
                    inner_box_options[bx] = inner_box_options[bx] & (ALL_OPTIONS ^ mask);
                    proof {
                        lemma_place_wf(gb, row as int, col as int, val as int);
                        gb = gb.place(row as int, col as int, val as int);
                    }
                }
                proof {
                    assert(givens_from(bytes@, start as int, row * 9 + col, gb_before) == givens_from(
                        bytes@,
                        start as int,
                        row * 9 + col + 1,
                        gb,
                    ));
                    assert(Seq::new(9, |r: int| raster[r]@) =~~= gb.raster);
                    assert(candidates_of(&possibles_raster) =~~= gb.possibles);
                    assert(rows_options@ =~= gb.rows_options);
                    assert(columns_options@ =~= gb.columns_options);
                    assert(inner_box_options@ =~= gb.inner_box_options);
                }
                col = col + 1;
            }
            row = row + 1;
        }
        let unsolved_rows = unsolved_mask(&rows_options);
        let unsolved_columns = unsolved_mask(&columns_options);
        let unsolved_inner_boxes = unsolved_mask(&inner_box_options);
        let s = Self {
            raster,
            unsolved_rows,
            unsolved_columns,
            unsolved_inner_boxes,
            rows_options,
            columns_options,
            inner_box_options,
            possibles_raster,
        };
        proof {
            let full = Board {
                unsolved_rows,
                unsolved_columns,
                unsolved_inner_boxes,
                ..gb
            };
            assert(s@ == full);
            assert(gb == puzzle_board(bytes@, start as int));
            lemma_bits_ext(unsolved_rows, gb.unsolved_rows);
            lemma_bits_ext(unsolved_columns, gb.unsolved_columns);
            lemma_bits_ext(unsolved_inner_boxes, gb.unsolved_inner_boxes);
            assert(full == gb);
            assert(full.shaped());
            assert(full.cells_ok());
            assert forall|u: int, i: int| 0 <= u < 27 implies (#[trigger] bit(full.unit_open(u), i)
                == (0 <= i < 9 && !full.in_unit(u, i + 1))) by {
                assert(full.unit_open(u) == gb.unit_open(u));
                assert(bit(gb.unit_open(u), i) == (0 <= i < 9 && !gb.in_unit(u, i + 1)));
                if full.in_unit(u, i + 1) {
                    let k = choose|k: int| 0 <= k < 9 && #[trigger] full.unit_digit(u, k) == i + 1;
                    assert(gb.unit_digit(u, k) == i + 1);
                }
                if gb.in_unit(u, i + 1) {
                    let k = choose|k: int| 0 <= k < 9 && #[trigger] gb.unit_digit(u, k) == i + 1;
                    assert(full.unit_digit(u, k) == i + 1);
                }
            }
            assert(full.unsolved_ok());
        }
        s
    }

    /// Intersects row/col/box candidate sets for each empty cell; fills any cell with exactly
    /// one option.
    pub fn solve_all_simples(&mut self) -> (found: bool)
        requires
            old(self).wf(),
        ensures
            final(self).wf(),
            (final(self)@, found) == old(self)@.simples(),
    {
        let ghost target = self@.simples();
        let mut found = false;
        let mut rows = self.unsolved_rows;
        let ghost mut lo: int = 0;
        proof {
            assert forall|r: int, c: int| 0 <= r < 9 && 0 <= c < 9 && !bit(rows, r) implies
                #[trigger] self@.digit(r, c) != 0 by {
                lemma_solved_row_full(self@, r);
            }
        }
        while rows != 0
            invariant
                self.wf(),
                0 <= lo <= 9,
                forall|j: int| #[trigger] bit(rows, j) ==> lo <= j < 9,
                forall|r: int, c: int|
                    lo <= r < 9 && 0 <= c < 9 && !bit(rows, r) ==> #[trigger] self@.digit(r, c)
                        != 0,
                self@.simples_from(lo, 0).0 == target.0,
                (found || self@.simples_from(lo, 0).1) == target.1,
            decreases rows,
        {
            proof {
                lemma_lowest(rows);
                lemma_clear_lowest(rows);
            }
            let row = rows.trailing_zeros() as usize;
            rows = rows & (rows - 1);
            proof {
                lemma_simples_skip_rows(self@, lo, row as int);
            }
            let ghost row_start = self@;
            let mut cols = self.unsolved_columns;
            let ghost mut lc: int = 0;
            proof {
                assert forall|r: int, c: int| 0 <= r < 9 && 0 <= c < 9 && !bit(cols, c) implies
                    #[trigger] self@.digit(r, c) != 0 by {
                    lemma_solved_column_full(self@, c);
                }
            }
            while cols != 0
                invariant
                    self.wf(),
                    row < 9,
                    0 <= lc <= 9,
                    forall|j: int| #[trigger] bit(cols, j) ==> lc <= j < 9,
                    forall|r: int, c: int|
                        0 <= r < 9 && lc <= c < 9 && !bit(cols, c) ==> #[trigger] self@.digit(
                            r,
                            c,
                        ) != 0,
                    forall|r: int, c: int|
                        #[trigger] valid_cell(r, c) && row_start.digit(r, c) != 0 ==> self@.digit(
                            r,
                            c,
                        ) == row_start.digit(r, c),
                    self@.simples_from(row as int, lc).0 == target.0,
                    (found || self@.simples_from(row as int, lc).1) == target.1,
                decreases cols,
            {
                proof {
                    lemma_lowest(cols);
                    lemma_clear_lowest(cols);
                }
                let col = cols.trailing_zeros() as usize;
                cols = cols & (cols - 1);
                proof {
                    lemma_simples_skip_cols_to(self@, row as int, lc, col as int);
                }
                let ghost before = self@;
                if self.raster[row][col] != 0 {
                    proof {
                        lemma_simples_skip_cell(self@, row as int, col as int);
                        lc = col + 1;
                    }
                    continue;
                }
                let bx = inner_box_of(row, col);
                let narrowed = self.possibles_raster[row][col].options & self.rows_options[row]
                    & self.columns_options[col] & self.inner_box_options[bx];
                self.possibles_raster[row][col].options = narrowed;
                proof {
                    assert(narrowed == before.narrowed(row as int, col as int));
                    assert(self@.possibles =~~= before.set_cand(row as int, col as int, narrowed).possibles);
                    assert(self@ == before.set_cand(row as int, col as int, narrowed));
                    lemma_set_cand_wf(before, row as int, col as int, narrowed);
                }
                if let Some(v) = self.possibles_raster[row][col].get_solution() {
                    proof {
                        lemma_single_bit(narrowed);
                        lemma_place_wf(self@, row as int, col as int, v as int);
                        lemma_place_cells(self@, row as int, col as int, v as int);
                    }
                    self.set_value(row, col, v as u8);
                    found = true;
                }
                proof {
                    assert forall|r: int, c: int| valid_cell(r, c) && before.digit(r, c) != 0 implies
                        #[trigger] self@.digit(r, c) == before.digit(r, c) by {}
                    assert forall|r: int, c: int|
                        0 <= r < 9 && col + 1 <= c < 9 && !bit(cols, c) implies #[trigger] self@.digit(
                        r,
                        c,
                    ) != 0 by {
                        assert(valid_cell(r, c));
                        assert(before.digit(r, c) != 0);
                    }
                    lc = col + 1;
                }
            }
            proof {
                lemma_simples_skip_cols(self@, row as int, lc);
                assert forall|r: int, c: int|
                    row + 1 <= r < 9 && 0 <= c < 9 && !bit(rows, r) implies #[trigger] self@.digit(
                    r,
                    c,
                ) != 0 by {
                    assert(valid_cell(r, c));
                    assert(row_start.digit(r, c) != 0);
                }
                lo = row + 1;
            }
        }
        proof {
            lemma_simples_skip_rows(self@, lo, 9);
        }
        found
    }

    /// The digits still open in unit `u`.
    fn unit_open_of(&self, u: usize) -> (m: u16)
        requires
            u < 27,
        ensures
            m == self@.unit_open(u as int),
    {
        if u < 9 {
            self.rows_options[u]
        } else if u < 18 {
            self.columns_options[u - 9]
        } else {
            self.inner_box_options[u - 18]
        }
    }

    /// The cells of unit `u` that still have `value` among their candidates.
    fn holders_of(&self, u: usize, value: u8) -> (options: Vec<(usize, usize)>)
        requires
            u < 27,
            1 <= value <= 9,
        ensures
            options.len() == self@.holders_upto(u as int, value as int, 9),
            forall|i: int|
                0 <= i < options.len() ==> self@.is_holder(
                    u as int,
                    value as int,
                    #[trigger] options[i],
                ),
    {
        let mut options: Vec<(usize, usize)> = Vec::new();
        let mut k: usize = 0;
        while k < 9
            invariant
                u < 27,
                1 <= value <= 9,
                k <= 9,
                options.len() == self@.holders_upto(u as int, value as int, k as int),
                forall|i: int|
                    0 <= i < options.len() ==> self@.is_holder(
                        u as int,
                        value as int,
                        #[trigger] options[i],
                    ),
            decreases 9 - k,
        {
            let (row, col) = unit_cell_of(u, k);
            if self.possibles_raster[row][col].options & (1u16 << ((value - 1) as u16)) != 0 {
                proof {
                    lemma_mask_test(self@.unit_cand(u as int, k as int), (value - 1) as u16);
                }
                options.push((row, col));
                proof {
                    assert(self@.is_holder(u as int, value as int, options[options.len() - 1]));
                }
            } else {
                proof {
                    lemma_mask_test(self@.unit_cand(u as int, k as int), (value - 1) as u16);
                }
            }
            k = k + 1;
        }
        options
    }

    /// Searches units `base..base + 9` whose bit is set in `unsolved`, and
    /// their open digits, for a digit that fits one cell of the unit only.
    fn find_exclusive(&self, base: usize, unsolved: u16) -> (res: Option<(usize, usize, usize, u8)>)
        requires
            self.wf(),
            base == 0 || base == 9 || base == 18,
            forall|j: int| #[trigger] bit(unsolved, j) == (0 <= j < 9 && self@.unit_open(base + j) != 0),
        ensures
            match res {
                Some((u, r, c, v)) => {
                    &&& self@.first_exclusive(base as int, 1) == Some((u as int, v as int))
                    &&& (r as int, c as int) == self@.exclusive_cell(u as int, v as int)
                    &&& r < 9 && c < 9
                    &&& 1 <= v <= 9
                    &&& self@.digit(r as int, c as int) == 0
                },
                None => self@.first_exclusive(base as int, 1) == self@.first_exclusive(base + 9, 1),
            },
    {
        let mut units = unsolved;
        let ghost mut lo: int = 0;
        while units != 0
            invariant
                self.wf(),
                base == 0 || base == 9 || base == 18,
                0 <= lo <= 9,
                forall|j: int| #[trigger] bit(units, j) ==> lo <= j < 9,
                forall|j: int| lo <= j < 9 && !#[trigger] bit(units, j) ==> self@.unit_open(base + j) == 0,
                self@.first_exclusive(base + lo, 1) == self@.first_exclusive(base as int, 1),
            decreases units,
        {
            proof {
                lemma_lowest(units);
                lemma_clear_lowest(units);
            }
            let ghost units_before = units;
            let index = units.trailing_zeros() as usize;
            units = units & (units - 1);
            let u = base + index;
            proof {
                assert forall|uu: int| base + lo <= uu < u implies #[trigger] self@.unit_open(uu) == 0 by {
                    assert(!bit(units_before, uu - base));
                }
                lemma_exclusive_skip_units(self@, base + lo, u as int);
            }
            let open = self.unit_open_of(u);
            let mut values = open;
            let ghost mut lv: int = 1;
            while values != 0
                invariant
                    self.wf(),
                    u < 27,
                    open == self@.unit_open(u as int),
                    1 <= lv <= 10,
                    forall|j: int| #[trigger] bit(values, j) ==> lv - 1 <= j < 9,
                    forall|j: int| lv - 1 <= j < 9 && !#[trigger] bit(values, j) ==> !bit(open, j),
                    forall|j: int| #[trigger] bit(values, j) ==> bit(open, j),
                    self@.first_exclusive(u as int, lv) == self@.first_exclusive(base as int, 1),
                decreases values,
            {
                proof {
                    lemma_lowest(values);
                    lemma_clear_lowest(values);
                    assert forall|v: int|
                        lv <= v < lowest(values) + 1
                        implies !#[trigger] bit(self@.unit_open(u as int), v - 1) by {
                        assert(!bit(values, v - 1));
                    }
                    lemma_exclusive_skip_digits(self@, u as int, lv, lowest(values) + 1);
                }
                let value = values.trailing_zeros() as u8 + 1;
                values = values & (values - 1);
                let options = self.holders_of(u, value);
                if options.len() == 1 {
                    let (r, c) = options[0];
                    proof {
                        assert(self@.is_holder(u as int, value as int, options[0]));
                        let k = choose|k: int|
                            0 <= k < 9 && #[trigger] bit(self@.unit_cand(u as int, k), value - 1)
                                && options[0].0 == unit_cell(u as int, k).0 && options[0].1
                                == unit_cell(u as int, k).1;
                        lemma_single_holder(self@, u as int, value as int, 9, k);
                        let k2 = choose|k2: int| 0 <= k2 < 9 && bit(self@.unit_cand(u as int, k2), value - 1);
                        assert(0 <= k2 < 9 && bit(self@.unit_cand(u as int, k2), value - 1));
                        assert(k2 == k);
                        lemma_unit_geometry(u as int, k);
                        lemma_open_holder_empty(self@, u as int, k, value as int);
                    }
                    return Some((u, r, c, value));
                }
                proof {
                    lv = value + 1;
                }
            }
            proof {
                assert forall|v: int|
                    lv <= v < 10 implies !#[trigger] bit(self@.unit_open(u as int), v - 1) by {
                    assert(!bit(values, v - 1));
                }
                lemma_exclusive_skip_digits(self@, u as int, lv, 10);
                lo = index + 1;
            }
        }
        proof {
            assert forall|uu: int| base + lo <= uu < base + 9 implies #[trigger] self@.unit_open(uu) == 0 by {
                assert(!bit(units, uu - base));
            }
            lemma_exclusive_skip_units(self@, base + lo, base + 9);
        }
        None
    }

    /// If a value fits only one cell in its row, column, or box, it is forced there.
    pub fn solve_exclusive_options(&mut self) -> (found: bool)
        requires
            old(self).wf(),
        ensures
            final(self).wf(),
            (final(self)@, found) == old(self)@.exclusive(),
    {
        proof {
            assert forall|j: int|
                #[trigger] bit(self.unsolved_rows, j) == (0 <= j < 9 && self@.unit_open(0 + j) != 0) by {
                assert(bit(self@.unsolved_rows, j) == (0 <= j < 9 && self@.rows_options[j] != 0));
                if 0 <= j < 9 {
                    assert(self@.unit_open(0 + j) == self@.rows_options[j]);
                }
            }
            assert forall|j: int|
                #[trigger] bit(self.unsolved_columns, j) == (0 <= j < 9 && self@.unit_open(9 + j) != 0) by {
                assert(bit(self@.unsolved_columns, j) == (0 <= j < 9 && self@.columns_options[j] != 0));
                if 0 <= j < 9 {
                    assert(self@.unit_open(9 + j) == self@.columns_options[j]);
                }
            }
            assert forall|j: int|
                #[trigger] bit(self.unsolved_inner_boxes, j) == (0 <= j < 9 && self@.unit_open(18 + j) != 0) by {
                assert(bit(self@.unsolved_inner_boxes, j) == (0 <= j < 9 && self@.inner_box_options[j] != 0));
                if 0 <= j < 9 {
                    assert(self@.unit_open(18 + j) == self@.inner_box_options[j]);
                }
            }
        }
        if let Some((_u, r, c, v)) = self.find_exclusive(0, self.unsolved_rows) {
            proof { lemma_place_wf(self@, r as int, c as int, v as int); }
            self.set_value(r, c, v);
            return true;
        }
        if let Some((_u, r, c, v)) = self.find_exclusive(9, self.unsolved_columns) {
            proof { lemma_place_wf(self@, r as int, c as int, v as int); }
            self.set_value(r, c, v);
            return true;
        }
        if let Some((_u, r, c, v)) = self.find_exclusive(18, self.unsolved_inner_boxes) {
            proof { lemma_place_wf(self@, r as int, c as int, v as int); }
            self.set_value(r, c, v);
            return true;
        }
        proof {
            lemma_exclusive_skip_units(self@, 27, 27);
        }
        false
    }

    /// The candidates of the `i`-th row of the box at `(row, col)`.
    fn inner_box_row_options(&self, row: usize, col: usize, i: usize) -> (m: u16)
        requires
            row + i < 9,
            col + 2 < 9,
        ensures
            m == self@.cand(row + i, col as int) | self@.cand(row + i, col + 1) | self@.cand(
                row + i,
                col + 2,
            ),
    {
        self.possibles_raster[row + i][col].options | self.possibles_raster[row + i][col
            + 1].options | self.possibles_raster[row + i][col + 2].options
    }

    /// The candidates of the `i`-th column of the box at `(row, col)`.
    fn inner_box_col_options(&self, row: usize, col: usize, i: usize) -> (m: u16)
        requires
            row + 2 < 9,
            col + i < 9,
        ensures
            m == self@.cand(row as int, col + i) | self@.cand(row + 1, col + i) | self@.cand(
                row + 2,
                col + i,
            ),
    {
        self.possibles_raster[row][col + i].options | self.possibles_raster[row + 1][col
            + i].options | self.possibles_raster[row + 2][col + i].options
    }

    /// Removes the candidates `exclusive` from cell `(r, c)`; tells whether any went.
    fn exclude_candidates(&mut self, r: usize, c: usize, exclusive: u16) -> (changed: bool)
        requires
            old(self).wf(),
            r < 9,
            c < 9,
        ensures
            final(self).wf(),
            final(self)@ == old(self)@.set_cand(
                r as int,
                c as int,
                old(self)@.cand(r as int, c as int) & (ALL_OPTIONS ^ exclusive),
            ),
            changed == (old(self)@.cand(r as int, c as int) != final(self)@.cand(r as int, c as int)),
    {
        let ghost before = self@;
        let opts = self.possibles_raster[r][c].options;
        let narrowed = opts & (ALL_OPTIONS ^ exclusive);
        proof {
            lemma_set_cand_wf(before, r as int, c as int, narrowed);
        }
        if narrowed != opts {
            self.possibles_raster[r][c].options = narrowed;
            proof {
                assert(self@.possibles =~~= before.set_cand(r as int, c as int, narrowed).possibles);
            }
            true
        } else {
            proof {
                assert(self@.possibles =~~= before.set_cand(r as int, c as int, narrowed).possibles);
            }
            false
        }
    }

    /// Ray casting from one box.
    fn cast_rays_from_box(&mut self, bx: usize) -> (changed: bool)
        requires
            old(self).wf(),
            bx < 9,
        ensures
            final(self).wf(),
            final(self)@ == old(self)@.box_rays(bx as int),
            changed == (final(self)@ != old(self)@),
    {
        let ghost start = self@;
        let row = (bx / 3) * 3;
        let col = (bx % 3) * 3;
        let open = self.inner_box_options[bx];
        let inner_box_rows: [u16; 3] = [
            self.inner_box_row_options(row, col, 0) & open,
            self.inner_box_row_options(row, col, 1) & open,
            self.inner_box_row_options(row, col, 2) & open,
        ];
        let inner_box_cols: [u16; 3] = [
            self.inner_box_col_options(row, col, 0) & open,
            self.inner_box_col_options(row, col, 1) & open,
            self.inner_box_col_options(row, col, 2) & open,
        ];
        proof {
            assert(forall|i: int| 0 <= i < 3 ==> #[trigger] inner_box_rows[i] == start.box_row_options(bx as int, i));
            assert(forall|i: int| 0 <= i < 3 ==> #[trigger] inner_box_cols[i] == start.box_col_options(bx as int, i));
        }
        let mut options_excluded = false;
        let mut i: usize = 0;
        while i < 3
            invariant
                self.wf(),
                bx < 9,
                row == box_row(bx as int),
                col == box_col(bx as int),
                i <= 3,
                forall|j: int| 0 <= j < 3 ==> #[trigger] inner_box_rows[j] == start.box_row_options(bx as int, j),
                self@ == (Board { possibles: self@.possibles, ..start }),
                forall|r: int, c: int|
                    #[trigger] valid_cell(r, c) ==> self@.cand(r, c) == if row <= r < row + i && !(col
                        <= c < col + 3) {
                        start.rayed_cand(bx as int, r, c)
                    } else {
                        start.cand(r, c)
                    },
                options_excluded == candidates_changed(start, self@),
            decreases 3 - i,
        {
            let exclusive_row = exclusive_options(
                inner_box_rows[i],
                inner_box_rows[(i + 1) % 3],
                inner_box_rows[(i + 2) % 3],
            );
            proof {
                assert(exclusive_row == start.ray_row_mask(bx as int, i as int));
            }
            if exclusive_row != 0 {
                let mut row_col: usize = 0;
                while row_col < 9
                    invariant
                        self.wf(),
                        bx < 9,
                        row == box_row(bx as int),
                        col == box_col(bx as int),
                        i < 3,
                        row_col <= 9,
                        exclusive_row == start.ray_row_mask(bx as int, i as int),
                        exclusive_row != 0,
                        self@ == (Board { possibles: self@.possibles, ..start }),
                        forall|r: int, c: int|
                            #[trigger] valid_cell(r, c) ==> self@.cand(r, c) == if (row <= r < row + i || (r
                                == row + i && c < row_col)) && !(col <= c < col + 3) {
                                start.rayed_cand(bx as int, r, c)
                            } else {
                                start.cand(r, c)
                            },
                        options_excluded == candidates_changed(start, self@),
                    decreases 9 - row_col,
                {
                    if !(row_col >= col && row_col <= col + 2) {
                        let ghost before = self@;
                        proof {
                            assert(valid_cell(row + i, row_col as int));
                        }
                        if self.exclude_candidates(row + i, row_col, exclusive_row) {
                            options_excluded = true;
                            proof {
                                assert(valid_cell(row + i, row_col as int));
                            }
                        }
                        proof {
                            assert forall|r: int, c: int|
                                #[trigger] valid_cell(r, c) && (r != row + i || c != row_col) implies self@.cand(
                                r,
                                c,
                            ) == before.cand(r, c) by {}
                        }
                    }
                    row_col = row_col + 1;
                }
            }
            i = i + 1;
        }
        let mut i: usize = 0;
        while i < 3
            invariant
                self.wf(),
                bx < 9,
                row == box_row(bx as int),
                col == box_col(bx as int),
                i <= 3,
                forall|j: int| 0 <= j < 3 ==> #[trigger] inner_box_cols[j] == start.box_col_options(bx as int, j),
                self@ == (Board { possibles: self@.possibles, ..start }),
                forall|r: int, c: int|
                    #[trigger] valid_cell(r, c) ==> self@.cand(r, c) == if (row <= r < row + 3 && !(col
                        <= c < col + 3)) || (col <= c < col + i && !(row <= r < row + 3)) {
                        start.rayed_cand(bx as int, r, c)
                    } else {
                        start.cand(r, c)
                    },
                options_excluded == candidates_changed(start, self@),
            decreases 3 - i,
        {
            let exclusive_col = exclusive_options(
                inner_box_cols[i],
                inner_box_cols[(i + 1) % 3],
                inner_box_cols[(i + 2) % 3],
            );
            proof {
                assert(exclusive_col == start.ray_col_mask(bx as int, i as int));
            }
            if exclusive_col != 0 {
                let mut col_row: usize = 0;
                while col_row < 9
                    invariant
                        self.wf(),
                        bx < 9,
                        row == box_row(bx as int),
                        col == box_col(bx as int),
                        i < 3,
                        col_row <= 9,
                        exclusive_col == start.ray_col_mask(bx as int, i as int),
                        exclusive_col != 0,
                        self@ == (Board { possibles: self@.possibles, ..start }),
                        forall|r: int, c: int|
                            #[trigger] valid_cell(r, c) ==> self@.cand(r, c) == if (row <= r < row + 3 && !(col
                                <= c < col + 3)) || ((col <= c < col + i || (c == col + i && r
                                < col_row)) && !(row <= r < row + 3)) {
                                start.rayed_cand(bx as int, r, c)
                            } else {
                                start.cand(r, c)
                            },
                        options_excluded == candidates_changed(start, self@),
                    decreases 9 - col_row,
                {
                    if !(col_row >= row && col_row <= row + 2) {
                        let ghost before = self@;
                        proof {
                            assert(valid_cell(col_row as int, col + i));
                        }
                        if self.exclude_candidates(col_row, col + i, exclusive_col) {
                            options_excluded = true;
                            proof {
                                assert(valid_cell(col_row as int, col + i));
                            }
                        }
                        proof {
                            assert forall|r: int, c: int|
                                #[trigger] valid_cell(r, c) && (r != col_row || c != col + i) implies self@.cand(
                                r,
                                c,
                            ) == before.cand(r, c) by {}
                        }
                    }
                    col_row = col_row + 1;
                }
            }
            i = i + 1;
        }
        proof {
            let target = start.box_rays(bx as int);
            assert forall|r: int, c: int|
                #[trigger] valid_cell(r, c) implies self@.cand(r, c) == target.cand(r, c) by {}
            assert forall|r: int|
                0 <= r < 9 implies #[trigger] self@.possibles[r] =~= target.possibles[r] by {
                assert forall|c: int|
                    0 <= c < 9 implies #[trigger] self@.possibles[r][c] == target.possibles[r][c] by {
                    assert(valid_cell(r, c));
                }
            }
            assert(self@.possibles =~= target.possibles);
            assert(self@ == target);
            if !options_excluded {
                assert forall|r: int|
                    0 <= r < 9 implies #[trigger] self@.possibles[r] =~= start.possibles[r] by {
                    assert forall|c: int|
                        0 <= c < 9 implies #[trigger] self@.possibles[r][c] == start.possibles[r][c] by {
                        assert(valid_cell(r, c));
                    }
                }
                assert(self@.possibles =~= start.possibles);
            }
        }
        options_excluded
    }

    /// If a candidate is confined to one row/col within a box, eliminates it from the rest of
    /// that row/col (pointing pairs/triples).
    pub fn exclude_by_ray_casting(&mut self) -> (found: bool)
        requires
            old(self).wf(),
        ensures
            final(self).wf(),
            (final(self)@, found) == old(self)@.ray_casting(),
    {
        let ghost target = self@.ray_casting();
        let mut options_excluded = false;
        let mut boxes = self.unsolved_inner_boxes;
        let ghost mut lo: int = 0;
        while boxes != 0
            invariant
                self.wf(),
                0 <= lo <= 9,
                forall|j: int| #[trigger] bit(boxes, j) ==> lo <= j < 9,
                forall|j: int| lo <= j < 9 && !#[trigger] bit(boxes, j) ==> self@.inner_box_options[j] == 0,
                self@.rays_from(lo).0 == target.0,
                (options_excluded || self@.rays_from(lo).1) == target.1,
            decreases boxes,
        {
            proof {
                lemma_lowest(boxes);
                lemma_clear_lowest(boxes);
            }
            let ghost boxes_before = boxes;
            let inner_box_index = boxes.trailing_zeros() as usize;
            boxes = boxes & (boxes - 1);
            proof {
                assert forall|j: int|
                    lo <= j < inner_box_index implies #[trigger] self@.inner_box_options[j] == 0 by {
                    assert(!bit(boxes_before, j));
                }
                lemma_rays_skip(self@, lo, inner_box_index as int);
            }
            if self.cast_rays_from_box(inner_box_index) {
                options_excluded = true;
            }
            proof {
                lo = inner_box_index + 1;
            }
        }
        proof {
            assert forall|j: int| lo <= j < 9 implies #[trigger] self@.inner_box_options[j] == 0 by {
                assert(!bit(boxes, j));
            }
            lemma_rays_skip(self@, lo, 9);
        }
        options_excluded
    }

    /// The digits of row `row`, left to right.
    pub fn iter_row(&self, row: usize) -> (digits: Vec<u8>)
        requires
            row < 9,
        ensures
            digits@ == self@.raster[row as int],
    {
        let mut digits: Vec<u8> = Vec::new();
        let mut col: usize = 0;
        while col < 9
            invariant
                row < 9,
                col <= 9,
                digits@ == self@.raster[row as int].subrange(0, col as int),
            decreases 9 - col,
        {
            digits.push(self.raster[row][col]);
            col = col + 1;
            proof {
                assert(digits@ =~= self@.raster[row as int].subrange(0, col as int));
            }
        }
        proof {
            assert(digits@ =~= self@.raster[row as int]);
        }
        digits
    }

    /// The digits of column `column`, top to bottom.
    pub fn iter_column(&self, column: usize) -> (digits: Vec<u8>)
        requires
            column < 9,
        ensures
            digits@ == Seq::new(9, |i: int| self@.digit(i, column as int)),
    {
        let mut digits: Vec<u8> = Vec::new();
        let mut i: usize = 0;
        while i < 9
            invariant
                column < 9,
                i <= 9,
                digits@ == Seq::new(i as nat, |j: int| self@.digit(j, column as int)),
            decreases 9 - i,
        {
            digits.push(self.raster[i][column]);
            i = i + 1;
            proof {
                assert(digits@ =~= Seq::new(i as nat, |j: int| self@.digit(j, column as int)));
            }
        }
        digits
    }

    /// The digits of the box that holds cell `(row, column)`, row by row.
    pub fn iter_inner_box(&self, row: usize, column: usize) -> (digits: Vec<u8>)
        requires
            row < 9,
            column < 9,
        ensures
            digits@ == Seq::new(9, |k: int| self@.unit_digit(18 + box_index(row as int, column as int), k)),
    {
        let row_start = (row / 3) * 3;
        let col_start = (column / 3) * 3;
        let ghost u = 18 + box_index(row as int, column as int);
        let mut digits: Vec<u8> = Vec::new();
        let mut dr: usize = 0;
        while dr < 3
            invariant
                row < 9,
                column < 9,
                row_start == (row / 3) * 3,
                col_start == (column / 3) * 3,
                u == 18 + box_index(row as int, column as int),
                dr <= 3,
                digits@ == Seq::new((dr * 3) as nat, |k: int| self@.unit_digit(u, k)),
            decreases 3 - dr,
        {
            let mut dc: usize = 0;
            while dc < 3
                invariant
                    row < 9,
                    column < 9,
                    row_start == (row / 3) * 3,
                    col_start == (column / 3) * 3,
                    u == 18 + box_index(row as int, column as int),
                    dr < 3,
                    dc <= 3,
                    digits@ == Seq::new((dr * 3 + dc) as nat, |k: int| self@.unit_digit(u, k)),
                decreases 3 - dc,
            {
                digits.push(self.raster[row_start + dr][col_start + dc]);
                proof {
                    let k = dr * 3 + dc;
                    assert(k / 3 == dr && k % 3 == dc);
                    assert(self@.unit_digit(u, k as int) == self@.digit(row_start + dr, col_start + dc));
                }
                dc = dc + 1;
                proof {
                    assert(digits@ =~= Seq::new((dr * 3 + dc) as nat, |k: int| self@.unit_digit(u, k)));
                }
            }
            dr = dr + 1;
        }
        digits
    }

    /// Compares the grid with the expected solution, cell by cell in reading order.
    pub fn verify(&self, solution: &Solution) -> (state: SolveState)
        ensures
            state == compare_from(self@.raster, solution@, 0, 0),
    {
        let mut row: usize = 0;
        while row < 9
            invariant
                row <= 9,
                compare_from(self@.raster, solution@, row as int, 0) == compare_from(
                    self@.raster,
                    solution@,
                    0,
                    0,
                ),
            decreases 9 - row,
        {
            let mut column: usize = 0;
            while column < 9
                invariant
                    row < 9,
                    column <= 9,
                    compare_from(self@.raster, solution@, row as int, column as int) == compare_from(
                        self@.raster,
                        solution@,
                        0,
                        0,
                    ),
                decreases 9 - column,
            {
                let value = self.raster[row][column];
                if value == 0 {
                    return SolveState::Incomplete;
                }
                if value != solution.raster[row][column] {
                    return SolveState::Incorrect;
                }
                column = column + 1;
            }
            row = row + 1;
        }
        SolveState::Correct
    }

    /// Applies algorithms cheapest-first; restarts from the top whenever progress is made.
    pub fn solve(&mut self)
        requires
            old(self).wf(),
        ensures
            final(self).wf(),
            final(self)@ == old(self)@.solve_outcome(),
        decreases measure(old(self)@), 1int,
    {
        let ghost target = self@.solve_outcome();
        let ghost entry = measure(self@);
        loop
            invariant_except_break
                self@.solve_outcome() == target,
            invariant
                self.wf(),
                measure(self@) <= entry,
                entry == measure(old(self)@),
            ensures
                self.wf(),
                self@ == target,
            decreases measure(self@),
        {
            let ghost b0 = self@;
            proof {
                lemma_solve_steps(b0);
            }
            if self.unsolved_rows == 0 {
                break;
            }
            if self.solve_all_simples() {
                continue;
            }
            if self.unsolved_rows == 0 {
                break;
            }
            if self.solve_exclusive_options() {
                continue;
            }
            if self.unsolved_rows == 0 {
                break;
            }
            if self.exclude_by_ray_casting() {
                continue;
            }
            if self.unsolved_rows == 0 {
                break;
            }
            proof {
                lemma_zero_iff_no_bits(self.unsolved_rows);
            }
            if self.exclude_by_testing() {
                continue;
            }
            break;
        }
    }

    /// The first empty cell, in reading order, with two candidates or more.
    fn find_test_cell(&self) -> (cell: Option<(usize, usize)>)
        requires
            self.wf(),
        ensures
            match cell {
                Some((r, c)) => r < 9 && c < 9 && self@.first_test_cell(0, 0) == Some(
                    (r as int, c as int),
                ),
                None => self@.first_test_cell(0, 0) is None,
            },
    {
        let mut rows = self.unsolved_rows;
        let ghost mut lo: int = 0;
        proof {
            assert forall|j: int| #[trigger] bit(rows, j) implies 0 <= j < 9 by {
                assert(bit(self@.unsolved_rows, j) == (0 <= j < 9 && self@.rows_options[j] != 0));
            }
            assert forall|r: int, c: int|
                0 <= r < 9 && 0 <= c < 9 && !bit(rows, r) implies #[trigger] self@.digit(r, c)
                != 0 by {
                lemma_solved_row_full(self@, r);
            }
        }
        while rows != 0
            invariant
                self.wf(),
                0 <= lo <= 9,
                forall|j: int| #[trigger] bit(rows, j) ==> lo <= j < 9,
                forall|r: int, c: int|
                    lo <= r < 9 && 0 <= c < 9 && !bit(rows, r) ==> #[trigger] self@.digit(r, c)
                        != 0,
                self@.first_test_cell(lo, 0) == self@.first_test_cell(0, 0),
            decreases rows,
        {
            proof {
                lemma_lowest(rows);
                lemma_clear_lowest(rows);
            }
            let ghost rows_before = rows;
            let row = rows.trailing_zeros() as usize;
            rows = rows & (rows - 1);
            proof {
                assert forall|r: int, c: int|
                    lo <= r < row && 0 <= c < 9 implies !#[trigger] self@.testable(r, c) by {
                    assert(!bit(rows_before, r));
                }
                lemma_test_rows_skip(self@, lo, row as int);
            }
            let mut cols = self.unsolved_columns;
            let ghost mut lc: int = 0;
            proof {
                assert forall|j: int| #[trigger] bit(cols, j) implies 0 <= j < 9 by {
                    assert(bit(self@.unsolved_columns, j) == (0 <= j < 9
                        && self@.columns_options[j] != 0));
                }
                assert forall|r: int, c: int|
                    0 <= r < 9 && 0 <= c < 9 && !bit(cols, c) implies #[trigger] self@.digit(r, c)
                    != 0 by {
                    lemma_solved_column_full(self@, c);
                }
            }
            while cols != 0
                invariant
                    self.wf(),
                    row < 9,
                    0 <= lc <= 9,
                    forall|j: int| #[trigger] bit(cols, j) ==> lc <= j < 9,
                    forall|r: int, c: int|
                        0 <= r < 9 && lc <= c < 9 && !bit(cols, c) ==> #[trigger] self@.digit(r, c)
                            != 0,
                    self@.first_test_cell(row as int, lc) == self@.first_test_cell(0, 0),
                decreases cols,
            {
                proof {
                    lemma_lowest(cols);
                    lemma_clear_lowest(cols);
                }
                let ghost cols_before = cols;
                let col = cols.trailing_zeros() as usize;
                cols = cols & (cols - 1);
                proof {
                    assert forall|c: int| lc <= c < col implies !#[trigger] self@.testable(
                        row as int,
                        c,
                    ) by {
                        assert(!bit(cols_before, c));
                    }
                    lemma_test_cells_skip(self@, row as int, lc, col as int);
                }
                if self.raster[row][col] == 0 && candidate_count(
                    self.possibles_raster[row][col].options,
                ) > 1 {
                    return Some((row, col));
                }
                proof {
                    lemma_test_cells_skip(self@, row as int, col as int, col + 1);
                    lc = col + 1;
                }
            }
            proof {
                assert forall|c: int| lc <= c < 9 implies !#[trigger] self@.testable(row as int, c) by {
                    assert(!bit(cols, c));
                }
                lemma_test_cells_skip(self@, row as int, lc, 9);
                lo = row + 1;
            }
        }
        proof {
            assert forall|r: int, c: int|
                lo <= r < 9 && 0 <= c < 9 implies !#[trigger] self@.testable(r, c) by {
                assert(!bit(rows, r));
            }
            lemma_test_rows_skip(self@, lo, 9);
        }
        None
    }

    /// Tries the lowest candidate of the first unsolved cell with multiple candidates on a
    /// clone; accepts it if the clone solves fully, otherwise eliminates it.
    pub fn exclude_by_testing(&mut self) -> (found: bool)
        requires
            old(self).wf(),
        ensures
            final(self).wf(),
            (final(self)@, found) == old(self)@.testing(),
        decreases measure(old(self)@), 0int,
    {
        let ghost start = self@;
        let (row, col) = match self.find_test_cell() {
            Some(cell) => cell,
            None => return false,
        };
        let opts = self.possibles_raster[row][col].options;
        let value = opts.trailing_zeros() as u8 + 1;
        proof {
            lemma_test_choice(start);
            let (r0, c0, v0) = start.test_choice().unwrap();
            assert(r0 == row && c0 == col && v0 == value);
            lemma_test_outcome(start, true);
            lemma_test_outcome(start, false);
            lemma_measure(start.place(row as int, col as int, value as int), start);
        }
        let mut copy = self.clone();
        copy.set_value(row, col, value);
        copy.solve();
        if copy.unsolved_rows == 0 {
            self.set_value(row, col, value);
        } else {
            self.possibles_raster[row][col].options = self.possibles_raster[row][col].options & (
            ALL_OPTIONS ^ (1u16 << ((value - 1) as u16)));
            proof {
                assert(self@.possibles =~~= start.test_outcome(
                    row as int,
                    col as int,
                    value as int,
                    false,
                ).possibles);
            }
        }
        true
    }

    /// Writes `value` into the empty cell `(row, col)` and removes it from the
    /// open digits of the cell's row, column and box.
    pub fn set_value(&mut self, row: usize, col: usize, value: u8)
        requires
            row < 9,
            col < 9,
            old(self)@.digit(row as int, col as int) == 0,
            1 <= value <= 16,
        ensures
            final(self)@ == old(self)@.place(row as int, col as int, value as int),
    {
        let ghost start = self@;
        let bx = inner_box_of(row, col);
        let mask: u16 = 1u16 << ((value - 1) as u16);
        self.raster[row][col] = value;
        self.possibles_raster[row][col].options = mask;
        self.rows_options[row] = self.rows_options[row] & (ALL_OPTIONS ^ mask);
        self.columns_options[col] = self.columns_options[col] & (ALL_OPTIONS ^ mask);
        self.inner_box_options[bx] = self.inner_box_options[bx] & (ALL_OPTIONS ^ mask);
        if self.rows_options[row] == 0 {
            self.unsolved_rows = self.unsolved_rows & (ALL_OPTIONS ^ (1u16 << (row as u16)));
        }
        if self.columns_options[col] == 0 {
            self.unsolved_columns = self.unsolved_columns & (ALL_OPTIONS ^ (1u16 << (col as u16)));
        }
        if self.inner_box_options[bx] == 0 {
            self.unsolved_inner_boxes = self.unsolved_inner_boxes & (ALL_OPTIONS ^ (1u16 << (
            bx as u16)));
        }
        proof {
            let target = start.place(row as int, col as int, value as int);
            assert(self@.raster =~~= target.raster);
            assert(self@.possibles =~~= target.possibles);
            assert(self@.rows_options =~= target.rows_options);
            assert(self@.columns_options =~= target.columns_options);
            assert(self@.inner_box_options =~= target.inner_box_options);
        }
    }
}


/// Position of the first `','` at or after byte `i`.
pub open spec fn comma_from(bytes: Seq<u8>, i: int) -> Option<int>
    decreases bytes.len() - i,
{
    if i >= bytes.len() {
        None
    } else if bytes[i] == 44 {
        Some(i)
    } else {
        comma_from(bytes, i + 1)
    }
}

/// The solution grid read from the text at `start`.
pub open spec fn solution_grid(bytes: Seq<u8>, start: int) -> Seq<Seq<u8>> {
    Seq::new(9, |r: int| Seq::new(9, |c: int| grid_digit(bytes, start, r, c) as u8))
}

/// A line `puzzle,solution` that can be read: when it has a comma, 81
/// puzzle digits stand before it and 81 solution digits after it.
pub open spec fn line_readable(bytes: Seq<u8>) -> bool {
    comma_from(bytes, 0) matches Some(k) ==> k >= 81 && puzzle_text(bytes, 0) && solution_text(bytes, k + 1)
}

proof fn lemma_comma_from(bytes: Seq<u8>, i: int)
    requires
        0 <= i,
    ensures
        comma_from(bytes, i) matches Some(k) ==> i <= k < bytes.len() && bytes[k] == 44,
    decreases bytes.len() - i,
{
    if i < bytes.len() && bytes[i] != 44 {
        lemma_comma_from(bytes, i + 1);
    }
}

/// Tells whether a `puzzle,solution` line can be read (see `line_readable`).
pub fn line_is_readable(line: &str) -> (ok: bool)
    ensures
        ok == line_readable(line.spec_bytes()),
{
    let bytes = line.as_bytes();
    let len = bytes.len();
    let mut i: usize = 0;
    while i < len
        invariant
            len == bytes@.len(),
            i <= len,
            comma_from(bytes@, i as int) == comma_from(bytes@, 0),
        ensures
            i <= len,
            comma_from(bytes@, i as int) == comma_from(bytes@, 0),
            i < len ==> bytes@[i as int] == 44,
        decreases len - i,
    {
        if bytes[i] == 44u8 {
            break;
        }
        i = i + 1;
    }
    if i >= len {
        return true;
    }
    if i < 81 || len - (i + 1) < 81 {
        return false;
    }
    let mut k: usize = 0;
    while k < 81
        invariant
            len == bytes@.len(),
            81 <= i < len,
            comma_from(bytes@, 0) == Some(i as int),
            bytes@ == line.spec_bytes(),
            k <= 81,
            forall|j: int| 0 <= j < k ==> 48 <= #[trigger] bytes@[j] <= 64,
        decreases 81 - k,
    {
        if bytes[k] < 48u8 || bytes[k] > 64u8 {
            return false;
        }
        k = k + 1;
    }
    let mut k: usize = i + 1;
    while k < i + 82
        invariant
            len == bytes@.len(),
            81 <= i < len,
            i + 82 <= len,
            comma_from(bytes@, 0) == Some(i as int),
            bytes@ == line.spec_bytes(),
            forall|j: int| 0 <= j < 81 ==> 48 <= #[trigger] bytes@[j] <= 64,
            i + 1 <= k <= i + 82,
            forall|j: int| i + 1 <= j < k ==> 48 <= #[trigger] bytes@[j],
        decreases i + 82 - k,
    {
        if bytes[k] < 48u8 {
            return false;
        }
        k = k + 1;
    }
    true
}

/// Splits a `puzzle,solution` line at its first comma, solves the puzzle and
/// compares it with the solution; `None` for a line without a comma.
pub fn process_line(line: &str) -> (r: Option<SolveState>)
    requires
        line_readable(line.spec_bytes()),
    ensures
        match comma_from(line.spec_bytes(), 0) {
            None => r is None,
            Some(k) => r == Some(
                compare_from(
                    puzzle_board(line.spec_bytes(), 0).solve_outcome().raster,
                    solution_grid(line.spec_bytes(), k + 1),
                    0,
                    0,
                ),
            ),
        },
        comma_from(line.spec_bytes(), 0) matches Some(k) ==> (only_solution(
            puzzle_board(line.spec_bytes(), 0),
            solution_grid(line.spec_bytes(), k + 1),
        ) ==> r == Some(SolveState::Correct)),
{
    let bytes = line.as_bytes();
    let len = bytes.len();
    let mut i: usize = 0;
    while i < len
        invariant
            len == bytes@.len(),
            i <= len,
            comma_from(bytes@, i as int) == comma_from(bytes@, 0),
        ensures
            i <= len,
            comma_from(bytes@, i as int) == comma_from(bytes@, 0),
            i < len ==> bytes@[i as int] == 44,
        decreases len - i,
    {
        if bytes[i] == 44u8 {
            break;
        }
        i = i + 1;
    }
    if i >= len {
        return None;
    }
    proof {
        lemma_comma_from(bytes@, 0);
    }
    let mut puzzle = Sudoku::from_bytes(bytes, 0);
    let solution = Solution::from_bytes(bytes, i + 1);
    proof {
        assert(solution@ =~~= solution_grid(bytes@, i + 1));
        let pb = puzzle@;
        let g = solution_grid(bytes@, i + 1);
        if only_solution(pb, g) {
            lemma_givens_consistent(pb, g);
            lemma_unique_puzzle_is_solved(pb, g);
            lemma_completed_run_is_the_solution(pb, g);
        }
    }
    puzzle.solve();
    Some(puzzle.verify(&solution))
}


/// The grid text with `'.'` read as `'0'`.
pub open spec fn dots_as_zeros(bytes: Seq<u8>) -> Seq<u8> {
    Seq::new(81, |k: int| if bytes[k] == 46 { 48u8 } else { bytes[k] })
}

/// The digits of a board as text, `'0'` plus each digit, in reading order.
pub open spec fn board_text(b: Board) -> Seq<u8> {
    grid_text(b.raster)
}

/// The digits of a grid as text, `'0'` plus each digit, in reading order.
pub open spec fn grid_text(g: Seq<Seq<u8>>) -> Seq<u8> {
    Seq::new(81, |k: int| (48 + g[k / 9][k % 9]) as u8)
}

/// Solves an 81-byte grid in which `'.'` marks an empty cell: the solved grid
/// as text, or `None` when the solver leaves a row unsolved.
pub fn solve_grid_text(input: &[u8]) -> (r: Option<Vec<u8>>)
    requires
        input@.len() >= 81,
        forall|k: int| 0 <= k < 81 ==> #[trigger] input@[k] == 46 || 48 <= input@[k] <= 64,
    ensures
        ({
            let b = puzzle_board(dots_as_zeros(input@), 0).solve_outcome();
            &&& (r is Some) == (b.unsolved_rows == 0)
            &&& r matches Some(out) ==> out@ == board_text(b)
        }),
        solvable(puzzle_board(dots_as_zeros(input@), 0)) ==> r is Some,
        forall|g: Seq<Seq<u8>>|
            #[trigger] only_solution(puzzle_board(dots_as_zeros(input@), 0), g) ==> (r matches Some(
                out,
            ) && out@ == grid_text(g)),
{
    let mut buf: Vec<u8> = Vec::new();
    let mut i: usize = 0;
    while i < 81
        invariant
            input@.len() >= 81,
            i <= 81,
            buf@ == dots_as_zeros(input@).subrange(0, i as int),
        decreases 81 - i,
    {
        let b = input[i];
        if b != 46u8 {
            buf.push(b);
        } else {
            buf.push(48u8);
        }
        i = i + 1;
        proof {
            assert(buf@ =~= dots_as_zeros(input@).subrange(0, i as int));
        }
    }
    proof {
        assert(buf@ =~= dots_as_zeros(input@));
        assert forall|k: int| 0 <= k < 81 implies 48 <= #[trigger] buf@[k] <= 64 by {
            assert(input@[k] == 46 || 48 <= input@[k] <= 64);
        }
    }
    let mut puzzle = Sudoku::from_bytes(buf.as_slice(), 0);
    proof {
        let pb = puzzle@;
        if solvable(pb) {
            let g = choose|g: Seq<Seq<u8>>| #[trigger] is_solution(g) && agrees(pb, g);
            lemma_puzzle_is_solved(pb, g);
        }
        assert forall|g: Seq<Seq<u8>>| #[trigger] only_solution(pb, g) implies pb.solve_outcome().raster == g by {
            lemma_givens_consistent(pb, g);
            lemma_unique_puzzle_is_solved(pb, g);
        }
    }
    puzzle.solve();
    if puzzle.unsolved_rows != 0 {
        return None;
    }
    let mut out: Vec<u8> = Vec::new();
    let mut row: usize = 0;
    while row < 9
        invariant
            row <= 9,
            puzzle.wf(),
            out@ == board_text(puzzle@).subrange(0, row * 9),
        decreases 9 - row,
    {
        let mut col: usize = 0;
        while col < 9
            invariant
                row < 9,
                col <= 9,
                puzzle.wf(),
                out@ == board_text(puzzle@).subrange(0, row * 9 + col),
            decreases 9 - col,
        {
            proof {
                assert(valid_cell(row as int, col as int));
                let k = row * 9 + col;
                assert(k / 9 == row && k % 9 == col);
                assert(puzzle@.digit(row as int, col as int) <= 16);
            }
            out.push(48u8 + puzzle.raster[row][col]);
            col = col + 1;
            proof {
                assert(out@ =~= board_text(puzzle@).subrange(0, row * 9 + col));
            }
        }
        row = row + 1;
    }
    proof {
        assert(out@ =~= board_text(puzzle@));
    }
    Some(out)
}

} // verus!
