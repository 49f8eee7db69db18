//! The mathematical model of a puzzle under way: digits, candidates and the
//! bookkeeping masks of the solver, with the invariant that ties them together.
use vstd::prelude::*;
use vstd::relations::injective_on;
use vstd::set_lib::{set_int_range, lemma_int_range, lemma_map_size, lemma_subset_equality};
use crate::bits::{
    bit, bit_count, bits_within, group_bits, lemma_zero_iff_no_bits, lemma_count_pos,
    lemma_count_zero, lemma_count_within, lemma_bits_ext, lemma_count_after,
};

verus! {

broadcast use group_bits;

/// Index of the 3x3 box that holds cell `(r, c)`.
pub open spec fn box_index(r: int, c: int) -> int {
    (r / 3) * 3 + c / 3
}

/// First row of box `bx`.
pub open spec fn box_row(bx: int) -> int {
    (bx / 3) * 3
}

/// First column of box `bx`.
pub open spec fn box_col(bx: int) -> int {
    (bx % 3) * 3
}

/// Units are numbered: rows `0..9`, columns `9..18`, boxes `18..27`.
/// The `k`-th cell of unit `u`.
pub open spec fn unit_cell(u: int, k: int) -> (int, int) {
    if u < 9 {
        (u, k)
    } else if u < 18 {
        (k, u - 9)
    } else {
        (box_row(u - 18) + k / 3, box_col(u - 18) + k % 3)
    }
}

/// Cell `(r, c)` belongs to unit `u`.
pub open spec fn unit_has(u: int, r: int, c: int) -> bool {
    if u < 9 {
        u == r
    } else if u < 18 {
        u - 9 == c
    } else {
        u - 18 == box_index(r, c)
    }
}

/// Position of cell `(r, c)` within unit `u`.
pub open spec fn unit_index(u: int, r: int, c: int) -> int {
    if u < 9 {
        c
    } else if u < 18 {
        r
    } else {
        (r % 3) * 3 + c % 3
    }
}

pub open spec fn valid_cell(r: int, c: int) -> bool {
    0 <= r < 9 && 0 <= c < 9
}

/// The mask of candidate digit `v`.
pub open spec fn digit_mask(v: int) -> u16 {
    1u16 << ((v - 1) as u16)
}

/// The state of a puzzle as the solver sees it.
#[verifier::ext_equal]
pub struct Board {
    /// Digits, `0` for an empty cell.
    pub raster: Seq<Seq<u8>>,
    /// Candidate digits of each cell.
    pub possibles: Seq<Seq<u16>>,
    /// Digits not yet placed in each row.
    pub rows_options: Seq<u16>,
    /// Digits not yet placed in each column.
    pub columns_options: Seq<u16>,
    /// Digits not yet placed in each box.
    pub inner_box_options: Seq<u16>,
    /// Rows with a digit still to place.
    pub unsolved_rows: u16,
    /// Columns with a digit still to place.
    pub unsolved_columns: u16,
    /// Boxes with a digit still to place.
    pub unsolved_inner_boxes: u16,
}

impl Board {
    pub open spec fn digit(self, r: int, c: int) -> u8 {
        self.raster[r][c]
    }

    pub open spec fn cand(self, r: int, c: int) -> u16 {
        self.possibles[r][c]
    }

    pub open spec fn unit_digit(self, u: int, k: int) -> u8 {
        self.digit(unit_cell(u, k).0, unit_cell(u, k).1)
    }

    pub open spec fn unit_cand(self, u: int, k: int) -> u16 {
        self.cand(unit_cell(u, k).0, unit_cell(u, k).1)
    }

    /// Digits still open in unit `u`, as the board records them.
    pub open spec fn unit_open(self, u: int) -> u16 {
        if u < 9 {
            self.rows_options[u]
        } else if u < 18 {
            self.columns_options[u - 9]
        } else {
            self.inner_box_options[u - 18]
        }
    }

    /// Digit `v` stands somewhere in unit `u`.
    pub open spec fn in_unit(self, u: int, v: int) -> bool {
        exists|k: int| 0 <= k < 9 && #[trigger] self.unit_digit(u, k) == v
    }

    pub open spec fn shaped(self) -> bool {
        &&& self.raster.len() == 9
        &&& self.possibles.len() == 9
        &&& forall|r: int| 0 <= r < 9 ==> #[trigger] self.raster[r].len() == 9
        &&& forall|r: int| 0 <= r < 9 ==> #[trigger] self.possibles[r].len() == 9
        &&& self.rows_options.len() == 9
        &&& self.columns_options.len() == 9
        &&& self.inner_box_options.len() == 9
    }

    /// Filled cells hold their digit as their only candidate; empty cells have
    /// candidates among the nine digits.
    pub open spec fn cells_ok(self) -> bool {
        &&& forall|r: int, c: int| valid_cell(r, c) ==> #[trigger] self.digit(r, c) <= 16
        &&& forall|r: int, c: int, i: int|
            valid_cell(r, c) && #[trigger] bit(self.cand(r, c), i) ==> if self.digit(r, c) == 0 {
                i < 9
            } else {
                i == self.digit(r, c) - 1
            }
    }

    /// Each unit's open mask holds exactly the digits not yet placed in it.
    pub open spec fn options_ok(self) -> bool {
        forall|u: int, i: int|
            0 <= u < 27 ==> (#[trigger] bit(self.unit_open(u), i) == (0 <= i < 9 && !self.in_unit(
                u,
                i + 1,
            )))
    }

    /// The unsolved masks mark the units with an open digit.
    pub open spec fn unsolved_ok(self) -> bool {
        &&& forall|j: int| #[trigger]
            bit(self.unsolved_rows, j) == (0 <= j < 9 && self.rows_options[j] != 0)
        &&& forall|j: int| #[trigger]
            bit(self.unsolved_columns, j) == (0 <= j < 9 && self.columns_options[j] != 0)
        &&& forall|j: int| #[trigger]
            bit(self.unsolved_inner_boxes, j) == (0 <= j < 9 && self.inner_box_options[j] != 0)
    }

    /// The invariant of a board.
    pub open spec fn wf(self) -> bool {
        &&& self.shaped()
        &&& self.cells_ok()
        &&& self.options_ok()
        &&& self.unsolved_ok()
    }

    /// The board with candidates `m` for cell `(r, c)`.
    pub open spec fn set_cand(self, r: int, c: int, m: u16) -> Board {
        Board { possibles: self.possibles.update(r, self.possibles[r].update(c, m)), ..self }
    }

    /// The board after digit `v` is written into cell `(r, c)`: the cell's
    /// candidates become `v` alone, `v` leaves the open digits of the cell's
    /// row, column and box, and a unit left with no open digit leaves its
    /// unsolved mask.
    pub open spec fn place(self, r: int, c: int, v: int) -> Board {
        let m = digit_mask(v);
        let bx = box_index(r, c);
        let row_open = self.rows_options[r] & (511u16 ^ m);
        let col_open = self.columns_options[c] & (511u16 ^ m);
        let box_open = self.inner_box_options[bx] & (511u16 ^ m);
        Board {
            raster: self.raster.update(r, self.raster[r].update(c, v as u8)),
            possibles: self.possibles.update(r, self.possibles[r].update(c, m)),
            rows_options: self.rows_options.update(r, row_open),
            columns_options: self.columns_options.update(c, col_open),
            inner_box_options: self.inner_box_options.update(bx, box_open),
            unsolved_rows: if row_open == 0 {
                self.unsolved_rows & (511u16 ^ (1u16 << (r as u16)))
            } else {
                self.unsolved_rows
            },
            unsolved_columns: if col_open == 0 {
                self.unsolved_columns & (511u16 ^ (1u16 << (c as u16)))
            } else {
                self.unsolved_columns
            },
            unsolved_inner_boxes: if box_open == 0 {
                self.unsolved_inner_boxes & (511u16 ^ (1u16 << (bx as u16)))
            } else {
                self.unsolved_inner_boxes
            },
        }
    }
}

/// Arithmetic of units and boxes.
pub proof fn lemma_unit_geometry(u: int, k: int)
    requires
        0 <= u < 27,
        0 <= k < 9,
    ensures
        valid_cell(unit_cell(u, k).0, unit_cell(u, k).1),
        unit_has(u, unit_cell(u, k).0, unit_cell(u, k).1),
        unit_index(u, unit_cell(u, k).0, unit_cell(u, k).1) == k,
{
}

pub proof fn lemma_unit_index(u: int, r: int, c: int)
    requires
        0 <= u < 27,
        valid_cell(r, c),
        unit_has(u, r, c),
    ensures
        0 <= unit_index(u, r, c) < 9,
        unit_cell(u, unit_index(u, r, c)) == (r, c),
{
}

pub proof fn lemma_box_index(r: int, c: int)
    requires
        valid_cell(r, c),
    ensures
        0 <= box_index(r, c) < 9,
        box_row(box_index(r, c)) <= r < box_row(box_index(r, c)) + 3,
        box_col(box_index(r, c)) <= c < box_col(box_index(r, c)) + 3,
{
}


/// Cells other than `(r, c)` keep their digit and candidates when `v` is placed.
pub proof fn lemma_place_cells(b: Board, r: int, c: int, v: int)
    requires
        b.shaped(),
        valid_cell(r, c),
    ensures
        b.place(r, c, v).shaped(),
        forall|r2: int, c2: int|
            valid_cell(r2, c2) ==> #[trigger] b.place(r, c, v).digit(r2, c2) == if r2 == r && c2
                == c {
                v as u8
            } else {
                b.digit(r2, c2)
            },
        forall|r2: int, c2: int|
            valid_cell(r2, c2) ==> #[trigger] b.place(r, c, v).cand(r2, c2) == if r2 == r && c2
                == c {
                digit_mask(v)
            } else {
                b.cand(r2, c2)
            },
{
}

/// Placing `v` into an empty cell adds `v` to the digits of the cell's units.
pub proof fn lemma_place_in_unit(b: Board, r: int, c: int, v: int, u: int, x: int)
    requires
        b.shaped(),
        valid_cell(r, c),
        0 <= u < 27,
        b.digit(r, c) == 0,
        x != 0,
    ensures
        b.place(r, c, v).in_unit(u, x) == (b.in_unit(u, x) || (unit_has(u, r, c) && x == (
        v as u8))),
{
    let nb = b.place(r, c, v);
    lemma_place_cells(b, r, c, v);
    if nb.in_unit(u, x) {
        let k = choose|k: int| 0 <= k < 9 && #[trigger] nb.unit_digit(u, k) == x;
        lemma_unit_geometry(u, k);
        if unit_cell(u, k) != (r, c) {
            assert(b.unit_digit(u, k) == x);
        }
    }
    if b.in_unit(u, x) {
        let k = choose|k: int| 0 <= k < 9 && #[trigger] b.unit_digit(u, k) == x;
        lemma_unit_geometry(u, k);
        assert(nb.unit_digit(u, k) == x);
    }
    if unit_has(u, r, c) && x == (v as u8) {
        let k = unit_index(u, r, c);
        lemma_unit_index(u, r, c);
        assert(nb.unit_digit(u, k) == x);
    }
}

/// The open mask of each unit after placing `v` at `(r, c)`.
pub proof fn lemma_place_open(b: Board, r: int, c: int, v: int, u: int)
    requires
        b.shaped(),
        valid_cell(r, c),
        0 <= u < 27,
    ensures
        b.place(r, c, v).unit_open(u) == if unit_has(u, r, c) {
            b.unit_open(u) & (511u16 ^ digit_mask(v))
        } else {
            b.unit_open(u)
        },
{
    lemma_box_index(r, c);
}

/// Writing a digit into an empty cell keeps the board invariant.
pub proof fn lemma_place_wf(b: Board, r: int, c: int, v: int)
    requires
        b.wf(),
        valid_cell(r, c),
        b.digit(r, c) == 0,
        1 <= v <= 16,
    ensures
        b.place(r, c, v).wf(),
{
    let nb = b.place(r, c, v);
    let m = digit_mask(v);
    lemma_place_cells(b, r, c, v);
    lemma_box_index(r, c);
    assert(forall|i: int| #[trigger] bit(m, i) == (i == v - 1));
    assert forall|u: int, i: int| 0 <= u < 27 implies (#[trigger] bit(nb.unit_open(u), i) == (0
        <= i < 9 && !nb.in_unit(u, i + 1))) by {
        lemma_place_open(b, r, c, v, u);
        if 0 <= i < 16 {
            lemma_place_in_unit(b, r, c, v, u, i + 1);
        }
    }
    assert forall|r2: int, c2: int, i: int|
        valid_cell(r2, c2) && #[trigger] bit(nb.cand(r2, c2), i) implies if nb.digit(r2, c2) == 0 {
        i < 9
    } else {
        i == nb.digit(r2, c2) - 1
    } by {}
    assert(nb.rows_options[r] == nb.unit_open(r));
    assert(nb.columns_options[c] == nb.unit_open(9 + c));
    assert(nb.inner_box_options[box_index(r, c)] == nb.unit_open(18 + box_index(r, c)));
    lemma_place_open(b, r, c, v, r);
    lemma_place_open(b, r, c, v, 9 + c);
    lemma_place_open(b, r, c, v, 18 + box_index(r, c));
    assert(forall|j: int| 0 <= j < 9 && j != r ==> nb.rows_options[j] == b.rows_options[j]);
    assert(forall|j: int|
        0 <= j < 9 && j != c ==> nb.columns_options[j] == b.columns_options[j]);
    assert(forall|j: int|
        0 <= j < 9 && j != box_index(r, c) ==> nb.inner_box_options[j]
            == b.inner_box_options[j]);
    lemma_open_nonzero_keeps(b.rows_options[r], m);
    lemma_open_nonzero_keeps(b.columns_options[c], m);
    lemma_open_nonzero_keeps(b.inner_box_options[box_index(r, c)], m);
}

/// A mask that keeps a bit after `& (511 ^ m)` was nonzero before.
pub proof fn lemma_open_nonzero_keeps(a: u16, m: u16)
    ensures
        (a & (511u16 ^ m)) != 0 ==> a != 0,
{
    if a == 0 {
        lemma_zero_iff_no_bits(a & (511u16 ^ m));
    }
}


/// Digit `v` is among the nine values `g(0..9)`.
pub open spec fn occurs(g: spec_fn(int) -> u8, v: int) -> bool {
    exists|k: int| 0 <= k < 9 && #[trigger] g(k) == v
}

/// Nine cells that hold all nine digits hold nothing else.
pub proof fn lemma_pigeonhole(g: spec_fn(int) -> u8)
    requires
        forall|v: int| 1 <= v <= 9 ==> #[trigger] occurs(g, v),
    ensures
        forall|k: int| 0 <= k < 9 ==> 1 <= #[trigger] g(k) <= 9,
{
    let digits = set_int_range(1, 10);
    let places = set_int_range(0, 9);
    let f = |v: int| choose|k: int| 0 <= k < 9 && #[trigger] g(k) == v;
    lemma_int_range(1, 10);
    lemma_int_range(0, 9);
    assert forall|v: int| #[trigger] digits.contains(v) implies 0 <= f(v) < 9 && g(f(v)) == v by {
        assert(occurs(g, v));
    }
    assert(injective_on(f, digits)) by {
        assert forall|x: int, y: int|
            digits.contains(x) && digits.contains(y) && #[trigger] f(x) == #[trigger] f(y) implies x
            == y by {
            assert(g(f(x)) == x);
            assert(g(f(y)) == y);
        }
    }
    let image = digits.map(f);
    lemma_map_size(digits, image, f);
    assert(image.subset_of(places)) by {
        assert forall|k: int| #[trigger] image.contains(k) implies places.contains(k) by {
            let v = choose|v: int| digits.contains(v) && f(v) == k;
        }
    }
    lemma_subset_equality(image, places);
    assert forall|k: int| 0 <= k < 9 implies 1 <= #[trigger] g(k) <= 9 by {
        assert(places.contains(k));
        assert(image.contains(k));
        let v = choose|v: int| digits.contains(v) && f(v) == k;
    }
}

/// A unit with no open digit is full.
pub proof fn lemma_full_unit(b: Board, u: int)
    requires
        b.wf(),
        0 <= u < 27,
        b.unit_open(u) == 0,
    ensures
        forall|k: int| 0 <= k < 9 ==> 1 <= #[trigger] b.unit_digit(u, k) <= 9,
{
    let g = |k: int| b.unit_digit(u, k);
    assert forall|v: int| 1 <= v <= 9 implies #[trigger] occurs(g, v) by {
        assert(!bit(b.unit_open(u), v - 1));
        assert(b.in_unit(u, v));
        let k = choose|k: int| 0 <= k < 9 && #[trigger] b.unit_digit(u, k) == v;
        assert(g(k) == v);
    }
    lemma_pigeonhole(g);
    assert forall|k: int| 0 <= k < 9 implies 1 <= #[trigger] b.unit_digit(u, k) <= 9 by {
        assert(g(k) == b.unit_digit(u, k));
    }
}


/// The board of a grid with no digit yet.
pub open spec fn empty_board() -> Board {
    Board {
        raster: Seq::new(9, |r: int| Seq::new(9, |c: int| 0u8)),
        possibles: Seq::new(9, |r: int| Seq::new(9, |c: int| 511u16)),
        rows_options: Seq::new(9, |j: int| 511u16),
        columns_options: Seq::new(9, |j: int| 511u16),
        inner_box_options: Seq::new(9, |j: int| 511u16),
        unsolved_rows: 511u16,
        unsolved_columns: 511u16,
        unsolved_inner_boxes: 511u16,
    }
}

pub proof fn lemma_empty_board_wf()
    ensures
        empty_board().wf(),
{
    let b = empty_board();
    assert forall|u: int, i: int| 0 <= u < 27 implies (#[trigger] bit(b.unit_open(u), i) == (0
        <= i < 9 && !b.in_unit(u, i + 1))) by {
        if b.in_unit(u, i + 1) {
            let k = choose|k: int| 0 <= k < 9 && #[trigger] b.unit_digit(u, k) == i + 1;
            lemma_unit_geometry(u, k);
        }
    }
    assert(511u16 != 0);
}


/// Narrowing the candidates of a cell keeps the board invariant.
pub proof fn lemma_set_cand_wf(b: Board, r: int, c: int, m: u16)
    requires
        b.wf(),
        valid_cell(r, c),
        forall|i: int| #[trigger] bit(m, i) ==> bit(b.cand(r, c), i),
    ensures
        b.set_cand(r, c, m).wf(),
        b.set_cand(r, c, m).raster == b.raster,
{
    let nb = b.set_cand(r, c, m);
    assert(nb.shaped());
    assert(nb.unsolved_ok());
    assert forall|r2: int, c2: int| valid_cell(r2, c2) implies #[trigger] nb.digit(r2, c2) <= 16 by {
        assert(nb.digit(r2, c2) == b.digit(r2, c2));
    }
    assert forall|r2: int, c2: int, i: int|
        valid_cell(r2, c2) && #[trigger] bit(nb.cand(r2, c2), i) implies if nb.digit(r2, c2) == 0 {
        i < 9
    } else {
        i == nb.digit(r2, c2) - 1
    } by {
        assert(bit(b.cand(r2, c2), i));
    }
    assert forall|u: int, i: int| 0 <= u < 27 implies (#[trigger] bit(nb.unit_open(u), i) == (0
        <= i < 9 && !nb.in_unit(u, i + 1))) by {
        assert(nb.unit_open(u) == b.unit_open(u));
        if nb.in_unit(u, i + 1) {
            let k = choose|k: int| 0 <= k < 9 && #[trigger] nb.unit_digit(u, k) == i + 1;
            assert(b.unit_digit(u, k) == i + 1);
        }
        if b.in_unit(u, i + 1) {
            let k = choose|k: int| 0 <= k < 9 && #[trigger] b.unit_digit(u, k) == i + 1;
            assert(nb.unit_digit(u, k) == i + 1);
        }
    }
}


/// A row left out of the unsolved mask is full.
pub proof fn lemma_solved_row_full(b: Board, r: int)
    requires
        b.wf(),
        0 <= r < 9,
        !bit(b.unsolved_rows, r),
    ensures
        forall|c: int| 0 <= c < 9 ==> #[trigger] b.digit(r, c) != 0,
{
    assert(b.unit_open(r) == 0);
    lemma_full_unit(b, r);
    assert forall|c: int| 0 <= c < 9 implies #[trigger] b.digit(r, c) != 0 by {
        assert(b.unit_digit(r, c) == b.digit(r, c));
    }
}

/// A column left out of the unsolved mask is full.
pub proof fn lemma_solved_column_full(b: Board, c: int)
    requires
        b.wf(),
        0 <= c < 9,
        !bit(b.unsolved_columns, c),
    ensures
        forall|r: int| 0 <= r < 9 ==> #[trigger] b.digit(r, c) != 0,
{
    assert(b.unit_open(9 + c) == 0);
    lemma_full_unit(b, 9 + c);
    assert forall|r: int| 0 <= r < 9 implies #[trigger] b.digit(r, c) != 0 by {
        assert(b.unit_digit(9 + c, r) == b.digit(r, c));
    }
}


/// A cell that can take a digit still open in its unit is empty.
pub proof fn lemma_open_holder_empty(b: Board, u: int, k: int, v: int)
    requires
        b.wf(),
        0 <= u < 27,
        0 <= k < 9,
        bit(b.unit_open(u), v - 1),
        bit(b.unit_cand(u, k), v - 1),
    ensures
        b.unit_digit(u, k) == 0,
        1 <= v <= 9,
{
    lemma_unit_geometry(u, k);
    if b.unit_digit(u, k) != 0 {
        assert(b.in_unit(u, v));
    }
}


/// What cell `(r, c)` still asks of the solver: much for an empty cell, and
/// one unit per candidate.
pub open spec fn cell_weight(b: Board, r: int, c: int) -> nat {
    (if b.digit(r, c) == 0 {
        2000nat
    } else {
        0nat
    }) + bit_count(b.cand(r, c))
}

/// Sum of the weights of the cells `k..81` in reading order.
pub open spec fn weight_from(b: Board, k: int) -> nat
    decreases 81 - k,
{
    if k >= 81 {
        0
    } else {
        cell_weight(b, k / 9, k % 9) + weight_from(b, k + 1)
    }
}

/// The progress measure of the solver: every technique that reports progress lowers it.
pub open spec fn measure(b: Board) -> nat {
    weight_from(b, 0)
}

/// No cell of `b2` weighs more than in `b1`.
pub open spec fn weights_le(b2: Board, b1: Board) -> bool {
    forall|r: int, c: int| #[trigger] valid_cell(r, c) ==> cell_weight(b2, r, c) <= cell_weight(b1, r, c)
}

/// No cell of `b2` weighs more than in `b1`, and one weighs less.
pub open spec fn weights_lt(b2: Board, b1: Board) -> bool {
    &&& weights_le(b2, b1)
    &&& exists|r: int, c: int| #[trigger] valid_cell(r, c) && cell_weight(b2, r, c) < cell_weight(b1, r, c)
}

pub proof fn lemma_weights_trans(b3: Board, b2: Board, b1: Board)
    requires
        weights_le(b3, b2),
        weights_le(b2, b1),
    ensures
        weights_le(b3, b1),
        weights_lt(b3, b2) || weights_lt(b2, b1) ==> weights_lt(b3, b1),
{
    if weights_lt(b3, b2) {
        let (r, c) = choose|r: int, c: int|
            #[trigger] valid_cell(r, c) && cell_weight(b3, r, c) < cell_weight(b2, r, c);
        assert(valid_cell(r, c) && cell_weight(b3, r, c) < cell_weight(b1, r, c));
    }
    if weights_lt(b2, b1) {
        let (r, c) = choose|r: int, c: int|
            #[trigger] valid_cell(r, c) && cell_weight(b2, r, c) < cell_weight(b1, r, c);
        assert(valid_cell(r, c) && cell_weight(b3, r, c) < cell_weight(b1, r, c));
    }
}

proof fn lemma_weight_from_le(b2: Board, b1: Board, k: int)
    requires
        0 <= k <= 81,
        weights_le(b2, b1),
    ensures
        weight_from(b2, k) <= weight_from(b1, k),
        (exists|r: int, c: int|
            #[trigger] valid_cell(r, c) && k <= r * 9 + c && cell_weight(b2, r, c) < cell_weight(b1, r, c))
            ==> weight_from(b2, k) < weight_from(b1, k),
    decreases 81 - k,
{
    if k < 81 {
        assert(valid_cell(k / 9, k % 9));
        lemma_weight_from_le(b2, b1, k + 1);
        if exists|r: int, c: int|
            #[trigger] valid_cell(r, c) && k <= r * 9 + c && cell_weight(b2, r, c) < cell_weight(b1, r, c) {
            let (r, c) = choose|r: int, c: int|
                #[trigger] valid_cell(r, c) && k <= r * 9 + c && cell_weight(b2, r, c) < cell_weight(b1, r, c);
            if r * 9 + c == k {
                assert(r == k / 9 && c == k % 9);
            } else {
                assert(valid_cell(r, c) && k + 1 <= r * 9 + c && cell_weight(b2, r, c) < cell_weight(b1, r, c));
            }
        }
    }
}

/// The measure follows the cell weights.
pub proof fn lemma_measure(b2: Board, b1: Board)
    requires
        weights_le(b2, b1),
    ensures
        measure(b2) <= measure(b1),
        weights_lt(b2, b1) ==> measure(b2) < measure(b1),
{
    lemma_weight_from_le(b2, b1, 0);
    if weights_lt(b2, b1) {
        let (r, c) = choose|r: int, c: int|
            #[trigger] valid_cell(r, c) && cell_weight(b2, r, c) < cell_weight(b1, r, c);
        assert(valid_cell(r, c) && 0 <= r * 9 + c && cell_weight(b2, r, c) < cell_weight(b1, r, c));
    }
}

/// Writing a digit into a cell with two candidates or more, or into an empty
/// cell, lowers the weights.
pub proof fn lemma_place_weights(b: Board, r: int, c: int, v: int)
    requires
        b.shaped(),
        valid_cell(r, c),
        1 <= v <= 16,
        b.digit(r, c) == 0 || bit_count(b.cand(r, c)) >= 2,
    ensures
        weights_lt(b.place(r, c, v), b),
{
    let nb = b.place(r, c, v);
    lemma_place_cells(b, r, c, v);
    let m = digit_mask(v);
    assert(forall|i: int| #[trigger] bit(m, i) == (i == v - 1));
    lemma_count_pos(m, 0, v - 1);
    assert forall|i: int| v - 1 < i < 16 implies !#[trigger] bit(m, i) by {}
    lemma_count_zero(m, v);
    lemma_count_after(m, 0, v - 1);
    assert(bit_count(m) == 1);
    assert(cell_weight(nb, r, c) < cell_weight(b, r, c));
    assert(valid_cell(r, c));
}

/// Narrowing a cell's candidates lowers the weights or keeps them.
pub proof fn lemma_narrow_weights(b: Board, r: int, c: int, m: u16)
    requires
        b.shaped(),
        valid_cell(r, c),
        bits_within(m, b.cand(r, c)),
    ensures
        weights_le(b.set_cand(r, c, m), b),
        m != b.cand(r, c) ==> weights_lt(b.set_cand(r, c, m), b),
{
    let nb = b.set_cand(r, c, m);
    lemma_count_within(m, b.cand(r, c), 0);
    if m != b.cand(r, c) {
        if forall|i: int| 0 <= i < 16 ==> bit(m, i) == bit(b.cand(r, c), i) {
            lemma_bits_ext(m, b.cand(r, c));
        }
        let j = choose|i: int| !(0 <= i < 16 ==> bit(m, i) == bit(b.cand(r, c), i));
        assert(0 <= j && bit(b.cand(r, c), j) && !bit(m, j));
        assert(valid_cell(r, c));
    }
}


/// A board that differs from `b1` only by fewer candidates keeps the invariant
/// and weighs no more, and less when it differs at all.
pub proof fn lemma_narrowed_board(b1: Board, b2: Board)
    requires
        b1.wf(),
        b2 == (Board { possibles: b2.possibles, ..b1 }),
        b2.possibles.len() == 9,
        forall|r: int| 0 <= r < 9 ==> #[trigger] b2.possibles[r].len() == 9,
        forall|r: int, c: int| #[trigger] valid_cell(r, c) ==> bits_within(b2.cand(r, c), b1.cand(r, c)),
    ensures
        b2.wf(),
        weights_le(b2, b1),
        b2 != b1 ==> weights_lt(b2, b1),
{
    assert forall|r2: int, c2: int, i: int|
        valid_cell(r2, c2) && #[trigger] bit(b2.cand(r2, c2), i) implies if b2.digit(r2, c2) == 0 {
        i < 9
    } else {
        i == b2.digit(r2, c2) - 1
    } by {
        assert(bits_within(b2.cand(r2, c2), b1.cand(r2, c2)));
    }
    assert forall|u: int, i: int| 0 <= u < 27 implies (#[trigger] bit(b2.unit_open(u), i) == (0
        <= i < 9 && !b2.in_unit(u, i + 1))) by {
        assert(b2.unit_open(u) == b1.unit_open(u));
        if b2.in_unit(u, i + 1) {
            let k = choose|k: int| 0 <= k < 9 && #[trigger] b2.unit_digit(u, k) == i + 1;
            assert(b1.unit_digit(u, k) == i + 1);
        }
        if b1.in_unit(u, i + 1) {
            let k = choose|k: int| 0 <= k < 9 && #[trigger] b1.unit_digit(u, k) == i + 1;
            assert(b2.unit_digit(u, k) == i + 1);
        }
    }
    assert forall|r: int, c: int|
        #[trigger] valid_cell(r, c) implies cell_weight(b2, r, c) <= cell_weight(b1, r, c) by {
        lemma_count_within(b2.cand(r, c), b1.cand(r, c), 0);
    }
    if b2 != b1 {
        if forall|r: int, c: int| #[trigger] valid_cell(r, c) ==> b2.cand(r, c) == b1.cand(r, c) {
            assert forall|r: int| 0 <= r < 9 implies #[trigger] b2.possibles[r] =~= b1.possibles[r] by {
                assert forall|c: int|
                    0 <= c < 9 implies #[trigger] b2.possibles[r][c] == b1.possibles[r][c] by {
                    assert(valid_cell(r, c));
                }
            }
            assert(b2.possibles =~= b1.possibles);
            assert(false);
        }
        let (r, c) = choose|r: int, c: int| #[trigger] valid_cell(r, c) && b2.cand(r, c) != b1.cand(r, c);
        assert(valid_cell(r, c));
        lemma_narrow_weights(b1, r, c, b2.cand(r, c));
        assert(b1.set_cand(r, c, b2.cand(r, c)).possibles[r][c] == b2.cand(r, c));
        assert(cell_weight(b2, r, c) < cell_weight(b1, r, c));
    }
}

} // verus!
