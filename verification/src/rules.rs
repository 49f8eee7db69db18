//! What each solving technique does to a board, stated as spec functions.
use vstd::prelude::*;
use crate::bits::{
    bit, bit_count, bits_within, lowest, group_bits, lemma_zero_iff_no_bits, lemma_single_bit,
    lemma_lowest, lemma_count_zero, lemma_count_after,
};
use crate::board::{
    Board, box_index, box_row, box_col, unit_cell, unit_has, valid_cell, weights_le, weights_lt,
    measure, digit_mask, lemma_measure, lemma_set_cand_wf, lemma_narrow_weights, lemma_place_wf,
    lemma_place_weights, lemma_weights_trans, lemma_unit_geometry, lemma_open_holder_empty,
    lemma_narrowed_board,
};

verus! {

broadcast use group_bits;

impl Board {
    /// The candidates of cell `(r, c)` narrowed to the digits still open in
    /// its row, column and box.
    pub open spec fn narrowed(self, r: int, c: int) -> u16 {
        self.cand(r, c) & self.rows_options[r] & self.columns_options[c]
            & self.inner_box_options[box_index(r, c)]
    }

    /// Simple elimination at one cell: an empty cell's candidates are
    /// narrowed, and a cell left with a single candidate gets that digit.
    pub open spec fn simple_step(self, r: int, c: int) -> (Board, bool) {
        if self.digit(r, c) != 0 {
            (self, false)
        } else {
            let p = self.narrowed(r, c);
            let b1 = self.set_cand(r, c, p);
            if bit_count(p) == 1 {
                (b1.place(r, c, lowest(p) + 1), true)
            } else {
                (b1, false)
            }
        }
    }

    /// Simple elimination over the cells from `(r, c)` on, in reading order;
    /// the flag tells whether a digit was written.
    pub open spec fn simples_from(self, r: int, c: int) -> (Board, bool)
        decreases 9 - r, 9 - c,
    {
        if r >= 9 {
            (self, false)
        } else if c >= 9 {
            self.simples_from(r + 1, 0)
        } else {
            let (b1, f1) = self.simple_step(r, c);
            let (b2, f2) = b1.simples_from(r, c + 1);
            (b2, f1 || f2)
        }
    }

    /// Simple elimination over the whole grid.
    pub open spec fn simples(self) -> (Board, bool) {
        self.simples_from(0, 0)
    }
}

impl Board {
    /// How many of the first `n` cells of unit `u` have digit `v` among their candidates.
    pub open spec fn holders_upto(self, u: int, v: int, n: int) -> nat
        decreases n,
    {
        if n <= 0 {
            0
        } else {
            self.holders_upto(u, v, n - 1) + if bit(self.unit_cand(u, n - 1), v - 1) {
                1nat
            } else {
                0nat
            }
        }
    }

    /// Cell `cell` of unit `u` has digit `v` among its candidates.
    pub open spec fn is_holder(self, u: int, v: int, cell: (usize, usize)) -> bool {
        exists|k: int|
            0 <= k < 9 && #[trigger] bit(self.unit_cand(u, k), v - 1) && cell.0 == unit_cell(u, k).0
                && cell.1 == unit_cell(u, k).1
    }

    /// Digit `v` is open in unit `u` and exactly one cell of the unit can take it.
    pub open spec fn exclusive_at(self, u: int, v: int) -> bool {
        bit(self.unit_open(u), v - 1) && self.holders_upto(u, v, 9) == 1
    }

    /// The first unit and digit, from unit `u` and digit `v` on, where a digit
    /// can go to one cell only: rows first, then columns, then boxes, and
    /// digits in increasing order within a unit.
    pub open spec fn first_exclusive(self, u: int, v: int) -> Option<(int, int)>
        decreases 27 - u, 10 - v,
    {
        if u >= 27 {
            None
        } else if v > 9 {
            self.first_exclusive(u + 1, 1)
        } else if self.exclusive_at(u, v) {
            Some((u, v))
        } else {
            self.first_exclusive(u, v + 1)
        }
    }

    /// The cell of unit `u` that can take digit `v`.
    pub open spec fn exclusive_cell(self, u: int, v: int) -> (int, int) {
        unit_cell(u, choose|k: int| 0 <= k < 9 && bit(self.unit_cand(u, k), v - 1))
    }

    /// Exclusive options: the first digit that fits only one cell of a unit
    /// is written there.
    pub open spec fn exclusive(self) -> (Board, bool) {
        match self.first_exclusive(0, 1) {
            Some((u, v)) => {
                let (r, c) = self.exclusive_cell(u, v);
                (self.place(r, c, v), true)
            },
            None => (self, false),
        }
    }
}

/// The bits of `base` found in neither of the two others.
pub open spec fn exclusive_mask(base: u16, other1: u16, other2: u16) -> u16 {
    ((base ^ other1) & base) & ((base ^ other2) & base)
}

impl Board {
    /// The open digits of box `bx` that are candidates in its `i`-th row.
    pub open spec fn box_row_options(self, bx: int, i: int) -> u16 {
        let r = box_row(bx) + i;
        let c = box_col(bx);
        (self.cand(r, c) | self.cand(r, c + 1) | self.cand(r, c + 2)) & self.inner_box_options[bx]
    }

    /// The open digits of box `bx` that are candidates in its `i`-th column.
    pub open spec fn box_col_options(self, bx: int, i: int) -> u16 {
        let r = box_row(bx);
        let c = box_col(bx) + i;
        (self.cand(r, c) | self.cand(r + 1, c) | self.cand(r + 2, c)) & self.inner_box_options[bx]
    }

    /// The open digits of box `bx` confined to its `i`-th row.
    pub open spec fn ray_row_mask(self, bx: int, i: int) -> u16 {
        exclusive_mask(
            self.box_row_options(bx, i),
            self.box_row_options(bx, (i + 1) % 3),
            self.box_row_options(bx, (i + 2) % 3),
        )
    }

    /// The open digits of box `bx` confined to its `i`-th column.
    pub open spec fn ray_col_mask(self, bx: int, i: int) -> u16 {
        exclusive_mask(
            self.box_col_options(bx, i),
            self.box_col_options(bx, (i + 1) % 3),
            self.box_col_options(bx, (i + 2) % 3),
        )
    }

    /// The candidates of cell `(r, c)` after ray casting from box `bx`: a digit
    /// of the box confined to one row (column) of the box is no candidate in
    /// the rest of that row (column) outside the box.
    pub open spec fn rayed_cand(self, bx: int, r: int, c: int) -> u16 {
        let r0 = box_row(bx);
        let c0 = box_col(bx);
        if r0 <= r < r0 + 3 && !(c0 <= c < c0 + 3) && self.ray_row_mask(bx, r - r0) != 0 {
            self.cand(r, c) & (511u16 ^ self.ray_row_mask(bx, r - r0))
        } else if c0 <= c < c0 + 3 && !(r0 <= r < r0 + 3) && self.ray_col_mask(bx, c - c0) != 0 {
            self.cand(r, c) & (511u16 ^ self.ray_col_mask(bx, c - c0))
        } else {
            self.cand(r, c)
        }
    }

    /// The board after ray casting from box `bx`.
    pub open spec fn box_rays(self, bx: int) -> Board {
        Board {
            possibles: Seq::new(9, |r: int| Seq::new(9, |c: int| self.rayed_cand(bx, r, c))),
            ..self
        }
    }

    /// Ray casting from the boxes `bx..9` in order; the flag tells whether a
    /// candidate was removed.
    pub open spec fn rays_from(self, bx: int) -> (Board, bool)
        decreases 9 - bx,
    {
        if bx >= 9 {
            (self, false)
        } else {
            let b1 = self.box_rays(bx);
            let (b2, f2) = b1.rays_from(bx + 1);
            (b2, f2 || b1 != self)
        }
    }

    /// Ray casting from every box.
    pub open spec fn ray_casting(self) -> (Board, bool) {
        self.rays_from(0)
    }
}

/// A box whose digits are all placed casts no ray.
pub proof fn lemma_rays_solved_box(b: Board, bx: int)
    requires
        b.shaped(),
        0 <= bx < 9,
        b.inner_box_options[bx] == 0,
    ensures
        b.box_rays(bx) == b,
{
    assert forall|i: int| #[trigger] b.box_row_options(bx, i) == 0 by {
        lemma_zero_iff_no_bits(b.box_row_options(bx, i));
    }
    assert forall|i: int| #[trigger] b.box_col_options(bx, i) == 0 by {
        lemma_zero_iff_no_bits(b.box_col_options(bx, i));
    }
    assert forall|i: int| #[trigger] b.ray_row_mask(bx, i) == 0 by {
        lemma_zero_iff_no_bits(b.ray_row_mask(bx, i));
    }
    assert forall|i: int| #[trigger] b.ray_col_mask(bx, i) == 0 by {
        lemma_zero_iff_no_bits(b.ray_col_mask(bx, i));
    }
    assert(b.box_rays(bx).possibles =~~= b.possibles);
}

/// Boxes whose digits are all placed are passed over.
pub proof fn lemma_rays_skip(b: Board, b0: int, b1: int)
    requires
        b.shaped(),
        0 <= b0 <= b1 <= 9,
        forall|j: int| b0 <= j < b1 ==> #[trigger] b.inner_box_options[j] == 0,
    ensures
        b.rays_from(b0) == b.rays_from(b1),
    decreases b1 - b0,
{
    if b0 < b1 {
        lemma_rays_solved_box(b, b0);
        lemma_rays_skip(b, b0 + 1, b1);
    }
}

/// Digits that are not open in a unit are passed over.
pub proof fn lemma_exclusive_skip_digits(b: Board, u: int, v0: int, v1: int)
    requires
        0 <= u < 27,
        1 <= v0 <= v1 <= 10,
        forall|v: int| v0 <= v < v1 ==> !#[trigger] bit(b.unit_open(u), v - 1),
    ensures
        b.first_exclusive(u, v0) == b.first_exclusive(u, v1),
    decreases v1 - v0,
{
    if v0 < v1 {
        lemma_exclusive_skip_digits(b, u, v0 + 1, v1);
    }
}

/// Units whose digits are all placed are passed over.
pub proof fn lemma_exclusive_skip_units(b: Board, u0: int, u1: int)
    requires
        0 <= u0 <= u1 <= 27,
        forall|u: int| u0 <= u < u1 ==> #[trigger] b.unit_open(u) == 0,
    ensures
        b.first_exclusive(u0, 1) == b.first_exclusive(u1, 1),
    decreases u1 - u0,
{
    if u0 < u1 {
        assert forall|v: int| 1 <= v < 10 implies !#[trigger] bit(b.unit_open(u0), v - 1) by {}
        lemma_exclusive_skip_digits(b, u0, 1, 10);
        lemma_exclusive_skip_units(b, u0 + 1, u1);
    }
}

/// With exactly one holder, every holder is the same cell.
pub proof fn lemma_single_holder(b: Board, u: int, v: int, n: int, k: int)
    requires
        0 <= k < n <= 9,
        b.holders_upto(u, v, n) == 1,
        bit(b.unit_cand(u, k), v - 1),
    ensures
        forall|j: int| 0 <= j < n && #[trigger] bit(b.unit_cand(u, j), v - 1) ==> j == k,
    decreases n,
{
    assert forall|j: int| 0 <= j < n && #[trigger] bit(b.unit_cand(u, j), v - 1) implies j == k by {
        if j != k {
            let hi = if j < k { k } else { j };
            let lo = if j < k { j } else { k };
            lemma_holders_pos(b, u, v, hi, lo);
            lemma_holders_mono(b, u, v, hi, n);
        }
    }
}

pub proof fn lemma_holders_pos(b: Board, u: int, v: int, n: int, k: int)
    requires
        0 <= k < n,
        bit(b.unit_cand(u, k), v - 1),
    ensures
        b.holders_upto(u, v, n) >= 1,
    decreases n,
{
    if k < n - 1 {
        lemma_holders_pos(b, u, v, n - 1, k);
    }
}

pub proof fn lemma_holders_mono(b: Board, u: int, v: int, m: int, n: int)
    requires
        0 <= m <= n,
    ensures
        b.holders_upto(u, v, m) + (if 0 <= m < n && bit(b.unit_cand(u, m), v - 1) {
            1nat
        } else {
            0nat
        }) <= b.holders_upto(u, v, n),
    decreases n - m,
{
    if m < n {
        lemma_holders_mono(b, u, v, m + 1, n);
    }
}

/// A filled cell is passed over.
pub proof fn lemma_simples_skip_cell(b: Board, r: int, c: int)
    requires
        0 <= r < 9,
        0 <= c < 9,
        b.digit(r, c) != 0,
    ensures
        b.simples_from(r, c) == b.simples_from(r, c + 1),
{
}

/// The filled end of a row is passed over.
pub proof fn lemma_simples_skip_cols(b: Board, r: int, c0: int)
    requires
        0 <= r < 9,
        0 <= c0 <= 9,
        forall|c: int| c0 <= c < 9 ==> #[trigger] b.digit(r, c) != 0,
    ensures
        b.simples_from(r, c0) == b.simples_from(r + 1, 0),
    decreases 9 - c0,
{
    if c0 < 9 {
        lemma_simples_skip_cols(b, r, c0 + 1);
    }
}

/// Filled cells of a row are passed over.
pub proof fn lemma_simples_skip_cols_to(b: Board, r: int, c0: int, c1: int)
    requires
        0 <= r < 9,
        0 <= c0 <= c1 <= 9,
        forall|c: int| c0 <= c < c1 ==> #[trigger] b.digit(r, c) != 0,
    ensures
        b.simples_from(r, c0) == b.simples_from(r, c1),
    decreases c1 - c0,
{
    if c0 < c1 {
        lemma_simples_skip_cols_to(b, r, c0 + 1, c1);
    }
}

/// Full rows are passed over.
pub proof fn lemma_simples_skip_rows(b: Board, r0: int, r1: int)
    requires
        0 <= r0 <= r1 <= 9,
        forall|r: int, c: int| r0 <= r < r1 && 0 <= c < 9 ==> #[trigger] b.digit(r, c) != 0,
    ensures
        b.simples_from(r0, 0) == b.simples_from(r1, 0),
    decreases r1 - r0,
{
    if r0 < r1 {
        lemma_simples_skip_cols(b, r0, 0);
        lemma_simples_skip_rows(b, r0 + 1, r1);
    }
}


/// One step of simple elimination keeps the invariant and lowers the weights.
pub proof fn lemma_simple_step(b: Board, r: int, c: int)
    requires
        b.wf(),
        valid_cell(r, c),
    ensures
        b.simple_step(r, c).0.wf(),
        weights_le(b.simple_step(r, c).0, b),
        b.simple_step(r, c).1 ==> weights_lt(b.simple_step(r, c).0, b),
{
    if b.digit(r, c) != 0 {
    } else {
        let p = b.narrowed(r, c);
        assert(bits_within(p, b.cand(r, c)));
        let b1 = b.set_cand(r, c, p);
        lemma_set_cand_wf(b, r, c, p);
        lemma_narrow_weights(b, r, c, p);
        if bit_count(p) == 1 {
            lemma_single_bit(p);
            let v = lowest(p) + 1;
            assert(b1.digit(r, c) == 0);
            lemma_place_wf(b1, r, c, v);
            lemma_place_weights(b1, r, c, v);
            lemma_weights_trans(b1.place(r, c, v), b1, b);
        }
    }
}

/// Simple elimination keeps the invariant, lowers the weights, and lowers
/// them strictly when it writes a digit.
pub proof fn lemma_simples_from(b: Board, r: int, c: int)
    requires
        b.wf(),
        0 <= r,
        0 <= c,
    ensures
        b.simples_from(r, c).0.wf(),
        weights_le(b.simples_from(r, c).0, b),
        b.simples_from(r, c).1 ==> weights_lt(b.simples_from(r, c).0, b),
    decreases 9 - r, 9 - c,
{
    if r >= 9 {
    } else if c >= 9 {
        lemma_simples_from(b, r + 1, 0);
    } else {
        let (b1, f1) = b.simple_step(r, c);
        lemma_simple_step(b, r, c);
        lemma_simples_from(b1, r, c + 1);
        lemma_weights_trans(b1.simples_from(r, c + 1).0, b1, b);
    }
}

pub proof fn lemma_holders_exist(b: Board, u: int, v: int, n: int)
    requires
        b.holders_upto(u, v, n) >= 1,
    ensures
        exists|k: int| 0 <= k < n && bit(b.unit_cand(u, k), v - 1),
    decreases n,
{
    if n > 0 && !bit(b.unit_cand(u, n - 1), v - 1) {
        lemma_holders_exist(b, u, v, n - 1);
    }
}

/// What the search for an exclusive digit finds is one.
pub proof fn lemma_first_exclusive(b: Board, u: int, v: int)
    requires
        0 <= u,
        1 <= v,
    ensures
        b.first_exclusive(u, v) matches Some((u2, v2)) ==> 0 <= u2 < 27 && 1 <= v2 <= 9
            && b.exclusive_at(u2, v2),
    decreases 27 - u, 10 - v,
{
    if u >= 27 {
    } else if v > 9 {
        lemma_first_exclusive(b, u + 1, 1);
    } else if b.exclusive_at(u, v) {
    } else {
        lemma_first_exclusive(b, u, v + 1);
    }
}

/// The cell that takes an exclusive digit is empty, in its unit, and has the digit as candidate.
pub proof fn lemma_exclusive_cell(b: Board, u: int, v: int)
    requires
        b.wf(),
        0 <= u < 27,
        b.exclusive_at(u, v),
    ensures
        1 <= v <= 9,
        valid_cell(b.exclusive_cell(u, v).0, b.exclusive_cell(u, v).1),
        unit_has(u, b.exclusive_cell(u, v).0, b.exclusive_cell(u, v).1),
        b.digit(b.exclusive_cell(u, v).0, b.exclusive_cell(u, v).1) == 0,
        bit(b.cand(b.exclusive_cell(u, v).0, b.exclusive_cell(u, v).1), v - 1),
{
    lemma_holders_exist(b, u, v, 9);
    let k = choose|k: int| 0 <= k < 9 && bit(b.unit_cand(u, k), v - 1);
    lemma_unit_geometry(u, k);
    lemma_open_holder_empty(b, u, k, v);
}

/// Exclusive options keep the invariant and lower the weights when they write a digit.
pub proof fn lemma_exclusive(b: Board)
    requires
        b.wf(),
    ensures
        b.exclusive().0.wf(),
        b.exclusive().1 ==> weights_lt(b.exclusive().0, b),
        !b.exclusive().1 ==> b.exclusive().0 == b,
{
    lemma_first_exclusive(b, 0, 1);
    if let Some((u, v)) = b.first_exclusive(0, 1) {
        lemma_exclusive_cell(b, u, v);
        let (r, c) = b.exclusive_cell(u, v);
        lemma_place_wf(b, r, c, v);
        lemma_place_weights(b, r, c, v);
    }
}

/// Ray casting from one box only removes candidates.
pub proof fn lemma_box_rays(b: Board, bx: int)
    requires
        b.wf(),
        0 <= bx < 9,
    ensures
        b.box_rays(bx).wf(),
        weights_le(b.box_rays(bx), b),
        b.box_rays(bx) != b ==> weights_lt(b.box_rays(bx), b),
{
    let b2 = b.box_rays(bx);
    assert forall|r: int, c: int|
        #[trigger] valid_cell(r, c) implies bits_within(b2.cand(r, c), b.cand(r, c)) by {
        assert(b2.cand(r, c) == b.rayed_cand(bx, r, c));
    }
    lemma_narrowed_board(b, b2);
}

/// Ray casting keeps the invariant and lowers the weights when it reports progress.
pub proof fn lemma_rays_from(b: Board, bx: int)
    requires
        b.wf(),
        0 <= bx,
    ensures
        b.rays_from(bx).0.wf(),
        weights_le(b.rays_from(bx).0, b),
        b.rays_from(bx).1 ==> weights_lt(b.rays_from(bx).0, b),
    decreases 9 - bx,
{
    if bx < 9 {
        let b1 = b.box_rays(bx);
        lemma_box_rays(b, bx);
        lemma_rays_from(b1, bx + 1);
        lemma_weights_trans(b1.rays_from(bx + 1).0, b1, b);
    }
}


impl Board {
    /// A cell that testing can try: empty, with two candidates or more.
    pub open spec fn testable(self, r: int, c: int) -> bool {
        self.digit(r, c) == 0 && bit_count(self.cand(r, c)) > 1
    }

    /// The first testable cell at or after `(r, c)` in reading order.
    pub open spec fn first_test_cell(self, r: int, c: int) -> Option<(int, int)>
        decreases 9 - r, 9 - c,
    {
        if r >= 9 {
            None
        } else if c >= 9 {
            self.first_test_cell(r + 1, 0)
        } else if self.testable(r, c) {
            Some((r, c))
        } else {
            self.first_test_cell(r, c + 1)
        }
    }

    /// The cell and digit that testing tries: the first empty cell, in
    /// reading order, with two candidates or more, and its lowest candidate.
    pub open spec fn test_choice(self) -> Option<(int, int, int)> {
        match self.first_test_cell(0, 0) {
            Some((r, c)) => Some((r, c, lowest(self.cand(r, c)) + 1)),
            None => None,
        }
    }

    /// The board after testing digit `v` at `(r, c)`: the digit is written
    /// when the trial solved the grid, and struck from the cell's candidates
    /// otherwise.
    pub open spec fn test_outcome(self, r: int, c: int, v: int, accepted: bool) -> Board {
        if accepted {
            self.place(r, c, v)
        } else {
            self.set_cand(r, c, self.cand(r, c) & (511u16 ^ digit_mask(v)))
        }
    }

    /// The board after the solver runs: the techniques apply cheapest first,
    /// and the run starts over from the top whenever one makes progress,
    /// until the rows are all solved or no technique makes progress.
    pub open spec fn solve_outcome(self) -> Board
        decreases measure(self),
        when self.wf()
    {
        let (b1, f1) = self.simples();
        let (b2, f2) = b1.exclusive();
        let (b3, f3) = b2.ray_casting();
        proof {
            lemma_solve_steps(self);
        }
        if self.unsolved_rows == 0 {
            self
        } else if f1 {
            b1.solve_outcome()
        } else if b1.unsolved_rows == 0 {
            b1
        } else if f2 {
            b2.solve_outcome()
        } else if b2.unsolved_rows == 0 {
            b2
        } else if f3 {
            b3.solve_outcome()
        } else if b3.unsolved_rows == 0 {
            b3
        } else {
            match b3.test_choice() {
                Some((r, c, v)) => {
                    let trial = b3.place(r, c, v).solve_outcome();
                    b3.test_outcome(r, c, v, trial.unsolved_rows == 0).solve_outcome()
                },
                None => b3,
            }
        }
    }

    /// Testing a value: the chosen digit is tried on a copy that is then
    /// solved; the flag tells whether a cell was tried.
    pub open spec fn testing(self) -> (Board, bool) {
        match self.test_choice() {
            Some((r, c, v)) => (
                self.test_outcome(r, c, v, self.place(r, c, v).solve_outcome().unsolved_rows == 0),
                true,
            ),
            None => (self, false),
        }
    }
}

proof fn lemma_first_test_cell(b: Board, r: int, c: int)
    requires
        0 <= r,
        0 <= c,
    ensures
        b.first_test_cell(r, c) matches Some((r2, c2)) ==> valid_cell(r2, c2) && b.testable(r2, c2),
    decreases 9 - r, 9 - c,
{
    if r >= 9 {
    } else if c >= 9 {
        lemma_first_test_cell(b, r + 1, 0);
    } else if !b.testable(r, c) {
        lemma_first_test_cell(b, r, c + 1);
    }
}

/// Cells that cannot be tested are passed over in a row.
pub proof fn lemma_test_cells_skip(b: Board, r: int, c0: int, c1: int)
    requires
        0 <= r < 9,
        0 <= c0 <= c1 <= 9,
        forall|c: int| c0 <= c < c1 ==> !#[trigger] b.testable(r, c),
    ensures
        b.first_test_cell(r, c0) == b.first_test_cell(r, c1),
    decreases c1 - c0,
{
    if c0 < c1 {
        lemma_test_cells_skip(b, r, c0 + 1, c1);
    }
}

/// Rows without a testable cell are passed over.
pub proof fn lemma_test_rows_skip(b: Board, r0: int, r1: int)
    requires
        0 <= r0 <= r1 <= 9,
        forall|r: int, c: int| r0 <= r < r1 && 0 <= c < 9 ==> !#[trigger] b.testable(r, c),
    ensures
        b.first_test_cell(r0, 0) == b.first_test_cell(r1, 0),
    decreases r1 - r0,
{
    if r0 < r1 {
        lemma_test_cells_skip(b, r0, 0, 9);
        lemma_test_rows_skip(b, r0 + 1, r1);
    }
}

/// A testable cell at or after `(r, c)` is found by the search.
pub proof fn lemma_test_cell_found(b: Board, r: int, c: int, r1: int, c1: int)
    requires
        0 <= r,
        0 <= c,
        valid_cell(r1, c1),
        r < r1 || (r == r1 && c <= c1),
        b.testable(r1, c1),
    ensures
        b.first_test_cell(r, c) is Some,
    decreases 9 - r, 9 - c,
{
    if c >= 9 {
        lemma_test_cell_found(b, r + 1, 0, r1, c1);
    } else if !b.testable(r, c) {
        lemma_test_cell_found(b, r, c + 1, r1, c1);
    }
}

/// The tested cell is empty and the tested digit one of its candidates.
pub proof fn lemma_test_choice(b: Board)
    ensures
        b.test_choice() matches Some((r, c, v)) ==> {
            &&& valid_cell(r, c)
            &&& b.digit(r, c) == 0
            &&& bit_count(b.cand(r, c)) >= 2
            &&& 1 <= v <= 16
            &&& bit(b.cand(r, c), v - 1)
            &&& v == lowest(b.cand(r, c)) + 1
        },
        b.wf() ==> (b.test_choice() matches Some((r, c, v)) ==> v <= 9),
{
    lemma_first_test_cell(b, 0, 0);
    if let Some((r, c)) = b.first_test_cell(0, 0) {
        let m = b.cand(r, c);
        lemma_lowest(m);
        if m == 0 {
            lemma_count_zero(m, 0);
        }
    }
}

/// Testing's outcome keeps the invariant and lowers the weights.
pub proof fn lemma_test_outcome(b: Board, accepted: bool)
    requires
        b.wf(),
        b.test_choice() is Some,
    ensures
        ({
            let (r, c, v) = b.test_choice().unwrap();
            &&& b.test_outcome(r, c, v, accepted).wf()
            &&& weights_lt(b.test_outcome(r, c, v, accepted), b)
            &&& b.place(r, c, v).wf()
            &&& weights_lt(b.place(r, c, v), b)
        }),
{
    lemma_test_choice(b);
    let (r, c, v) = b.test_choice().unwrap();
    lemma_place_wf(b, r, c, v);
    lemma_place_weights(b, r, c, v);
    let m = b.cand(r, c) & (511u16 ^ digit_mask(v));
    assert(forall|i: int| #[trigger] bit(digit_mask(v), i) == (i == v - 1));
    assert(bits_within(m, b.cand(r, c)));
    lemma_set_cand_wf(b, r, c, m);
    lemma_narrow_weights(b, r, c, m);
    assert(!bit(m, v - 1));
}

/// The facts that bound the recursion of the solver.
pub proof fn lemma_solve_steps(b: Board)
    requires
        b.wf(),
    ensures
        ({
            let (b1, f1) = b.simples();
            let (b2, f2) = b1.exclusive();
            let (b3, f3) = b2.ray_casting();
            &&& b1.wf() && b2.wf() && b3.wf()
            &&& measure(b1) <= measure(b)
            &&& f1 ==> measure(b1) < measure(b)
            &&& measure(b2) <= measure(b1)
            &&& f2 ==> measure(b2) < measure(b1)
            &&& measure(b3) <= measure(b2)
            &&& f3 ==> measure(b3) < measure(b2)
            &&& b3.test_choice() matches Some((r, c, v)) ==> {
                &&& b3.place(r, c, v).wf()
                &&& measure(b3.place(r, c, v)) < measure(b3)
                &&& b3.test_outcome(r, c, v, true).wf()
                &&& measure(b3.test_outcome(r, c, v, true)) < measure(b3)
                &&& b3.test_outcome(r, c, v, false).wf()
                &&& measure(b3.test_outcome(r, c, v, false)) < measure(b3)
            }
        }),
{
    let (b1, f1) = b.simples();
    lemma_simples_from(b, 0, 0);
    lemma_measure(b1, b);
    let (b2, f2) = b1.exclusive();
    lemma_exclusive(b1);
    if f2 {
        lemma_measure(b2, b1);
    }
    let (b3, f3) = b2.ray_casting();
    lemma_rays_from(b2, 0);
    lemma_measure(b3, b2);
    if let Some((r, c, v)) = b3.test_choice() {
        lemma_test_outcome(b3, true);
        lemma_test_outcome(b3, false);
        lemma_measure(b3.place(r, c, v), b3);
        lemma_measure(b3.test_outcome(r, c, v, true), b3);
        lemma_measure(b3.test_outcome(r, c, v, false), b3);
    }
}

} // verus!
