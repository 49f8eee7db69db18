//! What the solver promises: its techniques never lose a solution, it never
//! changes a digit once written, a grid it completes is a valid sudoku, and
//! every puzzle that has a solution is completed.
use vstd::prelude::*;
use vstd::relations::injective_on;
use vstd::set_lib::{set_int_range, lemma_int_range, lemma_map_size, lemma_subset_equality};
use crate::bits::{lemma_zero_iff_no_bits, bit, bit_count, bits_within, lowest, group_bits, lemma_single_bit};
use crate::solver::{SolveState, compare_from, given_candidates};
use crate::rules::{
    lemma_first_exclusive, lemma_exclusive_cell, lemma_single_holder, lemma_box_rays,
    lemma_exclusive, lemma_solve_steps, lemma_test_choice,
};
use crate::board::{
    Board, box_index, box_row, box_col, unit_cell, unit_has, unit_index, valid_cell, digit_mask,
    lemma_unit_geometry, lemma_unit_index, lemma_box_index, lemma_place_cells, lemma_set_cand_wf,
    measure, lemma_full_unit,
};

verus! {

broadcast use group_bits;

/// The digit of grid `s` at the `k`-th cell of unit `u`.
pub open spec fn unit_value(s: Seq<Seq<u8>>, u: int, k: int) -> u8 {
    s[unit_cell(u, k).0][unit_cell(u, k).1]
}

/// A solved sudoku: nine rows of nine digits from 1 to 9, no digit twice in
/// a row, a column or a box.
pub open spec fn is_solution(s: Seq<Seq<u8>>) -> bool {
    &&& s.len() == 9
    &&& forall|r: int| 0 <= r < 9 ==> #[trigger] s[r].len() == 9
    &&& forall|r: int, c: int| #[trigger] valid_cell(r, c) ==> 1 <= s[r][c] <= 9
    &&& forall|u: int, k1: int, k2: int|
        0 <= u < 27 && 0 <= k1 < k2 < 9 ==> #[trigger] unit_value(s, u, k1) != #[trigger] unit_value(
            s,
            u,
            k2,
        )
}

/// Every digit of the board stands where grid `s` has it.
pub open spec fn agrees(b: Board, s: Seq<Seq<u8>>) -> bool {
    forall|r: int, c: int|
        #[trigger] valid_cell(r, c) && b.digit(r, c) != 0 ==> b.digit(r, c) == s[r][c]
}

/// Grid `s` fits the board: it agrees with the digits, and each of its digits
/// is still a candidate of its cell.
pub open spec fn consistent(b: Board, s: Seq<Seq<u8>>) -> bool {
    &&& agrees(b, s)
    &&& forall|r: int, c: int| #[trigger] valid_cell(r, c) ==> bit(b.cand(r, c), s[r][c] - 1)
}

/// No digit from 1 to 9 stands twice in a unit.
pub open spec fn conflict_free(b: Board) -> bool {
    forall|u: int, k1: int, k2: int|
        0 <= u < 27 && 0 <= k1 < k2 < 9 && 1 <= #[trigger] b.unit_digit(u, k1) <= 9
            ==> b.unit_digit(u, k1) != #[trigger] b.unit_digit(u, k2)
}

/// Digit `v` is open in the row, the column and the box of cell `(r, c)`.
pub open spec fn open_at(b: Board, r: int, c: int, v: int) -> bool {
    &&& bit(b.rows_options[r], v - 1)
    &&& bit(b.columns_options[c], v - 1)
    &&& bit(b.inner_box_options[box_index(r, c)], v - 1)
}

/// Every candidate of an empty cell is open in the cell's units.
pub open spec fn refined(b: Board) -> bool {
    forall|r: int, c: int, i: int|
        #[trigger] valid_cell(r, c) && b.digit(r, c) == 0 && #[trigger] bit(b.cand(r, c), i)
            ==> open_at(b, r, c, i + 1)
}

/// Board `b2` keeps every digit of `b1`.
pub open spec fn extends(b2: Board, b1: Board) -> bool {
    forall|r: int, c: int|
        #[trigger] valid_cell(r, c) && b1.digit(r, c) != 0 ==> b2.digit(r, c) == b1.digit(r, c)
}

/// The unit of a cell that `unit_has` names is its row, column or box.
proof fn lemma_unit_open_of_cell(b: Board, u: int, r: int, c: int)
    requires
        0 <= u < 27,
        valid_cell(r, c),
        unit_has(u, r, c),
    ensures
        b.unit_open(u) == if u < 9 {
            b.rows_options[r]
        } else if u < 18 {
            b.columns_options[c]
        } else {
            b.inner_box_options[box_index(r, c)]
        },
{
}

/// A solved sudoku holds every digit in every unit.
pub proof fn lemma_solution_has_all(s: Seq<Seq<u8>>, u: int, v: int)
    requires
        is_solution(s),
        0 <= u < 27,
        1 <= v <= 9,
    ensures
        exists|k: int| 0 <= k < 9 && #[trigger] unit_value(s, u, k) == v,
{
    let cells = set_int_range(0, 9);
    let digits = set_int_range(1, 10);
    let f = |k: int| unit_value(s, u, k) as int;
    lemma_int_range(0, 9);
    lemma_int_range(1, 10);
    assert(injective_on(f, cells)) by {
        assert forall|x: int, y: int|
            cells.contains(x) && cells.contains(y) && #[trigger] f(x) == #[trigger] f(y) implies x
            == y by {
            if x < y {
                assert(unit_value(s, u, x) != unit_value(s, u, y));
            } else if y < x {
                assert(unit_value(s, u, y) != unit_value(s, u, x));
            }
        }
    }
    let image = cells.map(f);
    lemma_map_size(cells, image, f);
    assert(image.subset_of(digits)) by {
        assert forall|d: int| #[trigger] image.contains(d) implies digits.contains(d) by {
            let k = choose|k: int| cells.contains(k) && f(k) == d;
            lemma_unit_geometry(u, k);
            assert(valid_cell(unit_cell(u, k).0, unit_cell(u, k).1));
        }
    }
    lemma_subset_equality(image, digits);
    assert(digits.contains(v));
    assert(image.contains(v));
    let k = choose|k: int| cells.contains(k) && f(k) == v;
    assert(0 <= k < 9 && unit_value(s, u, k) == v);
}

/// In a board that agrees with a solved sudoku, the solution's digit at an
/// empty cell is open in each unit of the cell.
pub proof fn lemma_solution_digit_open(b: Board, s: Seq<Seq<u8>>, r: int, c: int)
    requires
        b.wf(),
        is_solution(s),
        agrees(b, s),
        valid_cell(r, c),
        b.digit(r, c) == 0,
    ensures
        open_at(b, r, c, s[r][c] as int),
{
    let v = s[r][c] as int;
    lemma_box_index(r, c);
    assert(valid_cell(r, c));
    assert forall|u: int| 0 <= u < 27 && unit_has(u, r, c) implies bit(b.unit_open(u), v - 1) by {
        lemma_unit_index(u, r, c);
        let kc = unit_index(u, r, c);
        if b.in_unit(u, v) {
            let k = choose|k: int| 0 <= k < 9 && #[trigger] b.unit_digit(u, k) == v;
            lemma_unit_geometry(u, k);
            assert(valid_cell(unit_cell(u, k).0, unit_cell(u, k).1));
            assert(unit_value(s, u, k) == v);
            assert(unit_value(s, u, kc) == v);
            assert(k != kc);
            if k < kc {
                assert(unit_value(s, u, k) != unit_value(s, u, kc));
            } else {
                assert(unit_value(s, u, kc) != unit_value(s, u, k));
            }
        }
    }
    lemma_unit_open_of_cell(b, r, r, c);
    lemma_unit_open_of_cell(b, 9 + c, r, c);
    lemma_unit_open_of_cell(b, 18 + box_index(r, c), r, c);
    assert(unit_has(r, r, c) && unit_has(9 + c, r, c) && unit_has(18 + box_index(r, c), r, c));
    assert(bit(b.unit_open(r), v - 1));
    assert(bit(b.unit_open(9 + c), v - 1));
    assert(bit(b.unit_open(18 + box_index(r, c)), v - 1));
}

/// Writing the solution's digit into an empty cell keeps the solution.
pub proof fn lemma_place_consistent(b: Board, s: Seq<Seq<u8>>, r: int, c: int)
    requires
        b.shaped(),
        consistent(b, s),
        valid_cell(r, c),
        1 <= s[r][c] <= 9,
    ensures
        consistent(b.place(r, c, s[r][c] as int), s),
{
    let v = s[r][c] as int;
    let nb = b.place(r, c, v);
    lemma_place_cells(b, r, c, v);
    assert(forall|i: int| #[trigger] bit(digit_mask(v), i) == (i == v - 1));
    assert forall|r2: int, c2: int|
        #[trigger] valid_cell(r2, c2) implies bit(nb.cand(r2, c2), s[r2][c2] - 1) by {
        assert(bit(b.cand(r2, c2), s[r2][c2] - 1));
    }
    assert forall|r2: int, c2: int|
        #[trigger] valid_cell(r2, c2) && nb.digit(r2, c2) != 0 implies nb.digit(r2, c2) == s[r2][c2] by {
        if r2 != r || c2 != c {
            assert(b.digit(r2, c2) != 0);
        }
    }
}

/// Narrowing a cell to a mask that keeps the solution's digit keeps the solution.
pub proof fn lemma_narrow_consistent(b: Board, s: Seq<Seq<u8>>, r: int, c: int, m: u16)
    requires
        b.shaped(),
        consistent(b, s),
        valid_cell(r, c),
        bit(m, s[r][c] - 1),
    ensures
        consistent(b.set_cand(r, c, m), s),
{
    let nb = b.set_cand(r, c, m);
    assert forall|r2: int, c2: int|
        #[trigger] valid_cell(r2, c2) implies bit(nb.cand(r2, c2), s[r2][c2] - 1) by {
        assert(bit(b.cand(r2, c2), s[r2][c2] - 1));
    }
    assert forall|r2: int, c2: int|
        #[trigger] valid_cell(r2, c2) && nb.digit(r2, c2) != 0 implies nb.digit(r2, c2) == s[r2][c2] by {
        assert(b.digit(r2, c2) != 0);
    }
}

/// Simple elimination at one cell never loses a solution.
pub proof fn lemma_simple_step_sound(b: Board, s: Seq<Seq<u8>>, r: int, c: int)
    requires
        b.wf(),
        is_solution(s),
        consistent(b, s),
        valid_cell(r, c),
    ensures
        consistent(b.simple_step(r, c).0, s),
{
    if b.digit(r, c) == 0 {
        let v = s[r][c] as int;
        assert(valid_cell(r, c));
        lemma_solution_digit_open(b, s, r, c);
        let p = b.narrowed(r, c);
        assert(bit(p, v - 1));
        lemma_narrow_consistent(b, s, r, c, p);
        let b1 = b.set_cand(r, c, p);
        if bit_count(p) == 1 {
            lemma_single_bit(p);
            assert(lowest(p) + 1 == v);
            lemma_place_consistent(b1, s, r, c);
        }
    }
}

/// Simple elimination never loses a solution: a solved sudoku that fits the
/// board before fits it after.
pub proof fn lemma_simples_sound(b: Board, s: Seq<Seq<u8>>, r: int, c: int)
    requires
        b.wf(),
        is_solution(s),
        consistent(b, s),
        0 <= r,
        0 <= c,
    ensures
        consistent(b.simples_from(r, c).0, s),
    decreases 9 - r, 9 - c,
{
    if r >= 9 {
    } else if c >= 9 {
        lemma_simples_sound(b, s, r + 1, 0);
    } else {
        let (b1, f1) = b.simple_step(r, c);
        lemma_simple_step_sound(b, s, r, c);
        crate::rules::lemma_simple_step(b, r, c);
        lemma_simples_sound(b1, s, r, c + 1);
    }
}


/// Exclusive options never lose a solution.
pub proof fn lemma_exclusive_sound(b: Board, s: Seq<Seq<u8>>)
    requires
        b.wf(),
        is_solution(s),
        consistent(b, s),
    ensures
        consistent(b.exclusive().0, s),
{
    lemma_first_exclusive(b, 0, 1);
    if let Some((u, v)) = b.first_exclusive(0, 1) {
        lemma_exclusive_cell(b, u, v);
        lemma_solution_has_all(s, u, v);
        let k0 = choose|k: int| 0 <= k < 9 && #[trigger] unit_value(s, u, k) == v;
        lemma_unit_geometry(u, k0);
        let (r0, c0) = unit_cell(u, k0);
        assert(valid_cell(r0, c0));
        if b.digit(r0, c0) != 0 {
            assert(b.unit_digit(u, k0) == v);
            assert(b.in_unit(u, v));
        }
        assert(bit(b.unit_cand(u, k0), v - 1));
        let kc = choose|k: int| 0 <= k < 9 && bit(b.unit_cand(u, k), v - 1);
        lemma_single_holder(b, u, v, 9, k0);
        assert(kc == k0);
        lemma_place_consistent(b, s, r0, c0);
    }
}

/// A digit of a box confined to one row of the box is not the solution's
/// digit anywhere else in that row.
pub proof fn lemma_ray_row_safe(b: Board, s: Seq<Seq<u8>>, bx: int, i: int, c: int)
    requires
        b.wf(),
        is_solution(s),
        consistent(b, s),
        0 <= bx < 9,
        0 <= i < 3,
        0 <= c < 9,
        !(box_col(bx) <= c < box_col(bx) + 3),
    ensures
        !bit(b.ray_row_mask(bx, i), s[box_row(bx) + i][c] - 1),
{
    let r = box_row(bx) + i;
    let w = s[r][c] as int;
    assert(valid_cell(r, c));
    if bit(b.ray_row_mask(bx, i), w - 1) {
        assert(bit(b.box_row_options(bx, i), w - 1));
        assert(bit(b.inner_box_options[bx], w - 1));
        let u = 18 + bx;
        lemma_solution_has_all(s, u, w);
        let k1 = choose|k: int| 0 <= k < 9 && #[trigger] unit_value(s, u, k) == w;
        lemma_unit_geometry(u, k1);
        let (r1, c1) = unit_cell(u, k1);
        assert(valid_cell(r1, c1));
        if b.digit(r1, c1) != 0 {
            assert(b.unit_digit(u, k1) == w);
            assert(b.in_unit(u, w));
            assert(b.unit_open(u) == b.inner_box_options[bx]);
        }
        assert(bit(b.cand(r1, c1), w - 1));
        let i1 = k1 / 3;
        let j1 = k1 % 3;
        assert(r1 == box_row(bx) + i1 && c1 == box_col(bx) + j1);
        assert(bit(b.box_row_options(bx, i1), w - 1));
        if i1 != i {
            assert(i1 == (i + 1) % 3 || i1 == (i + 2) % 3);
        }
        assert(r1 == r && c1 != c);
        let ka = if c < c1 { c } else { c1 };
        let kb = if c < c1 { c1 } else { c };
        assert(unit_value(s, r, ka) != unit_value(s, r, kb));
    }
}

/// A digit of a box confined to one column of the box is not the solution's
/// digit anywhere else in that column.
pub proof fn lemma_ray_col_safe(b: Board, s: Seq<Seq<u8>>, bx: int, i: int, r: int)
    requires
        b.wf(),
        is_solution(s),
        consistent(b, s),
        0 <= bx < 9,
        0 <= i < 3,
        0 <= r < 9,
        !(box_row(bx) <= r < box_row(bx) + 3),
    ensures
        !bit(b.ray_col_mask(bx, i), s[r][box_col(bx) + i] - 1),
{
    let c = box_col(bx) + i;
    let w = s[r][c] as int;
    assert(valid_cell(r, c));
    if bit(b.ray_col_mask(bx, i), w - 1) {
        assert(bit(b.box_col_options(bx, i), w - 1));
        assert(bit(b.inner_box_options[bx], w - 1));
        let u = 18 + bx;
        lemma_solution_has_all(s, u, w);
        let k1 = choose|k: int| 0 <= k < 9 && #[trigger] unit_value(s, u, k) == w;
        lemma_unit_geometry(u, k1);
        let (r1, c1) = unit_cell(u, k1);
        assert(valid_cell(r1, c1));
        if b.digit(r1, c1) != 0 {
            assert(b.unit_digit(u, k1) == w);
            assert(b.in_unit(u, w));
            assert(b.unit_open(u) == b.inner_box_options[bx]);
        }
        assert(bit(b.cand(r1, c1), w - 1));
        let i1 = k1 / 3;
        let j1 = k1 % 3;
        assert(r1 == box_row(bx) + i1 && c1 == box_col(bx) + j1);
        assert(bit(b.box_col_options(bx, j1), w - 1));
        if j1 != i {
            assert(j1 == (i + 1) % 3 || j1 == (i + 2) % 3);
        }
        assert(c1 == c && r1 != r);
        let ka = if r < r1 { r } else { r1 };
        let kb = if r < r1 { r1 } else { r };
        assert(unit_value(s, 9 + c, ka) != unit_value(s, 9 + c, kb));
    }
}

/// Ray casting from one box never loses a solution.
pub proof fn lemma_box_rays_sound(b: Board, s: Seq<Seq<u8>>, bx: int)
    requires
        b.wf(),
        is_solution(s),
        consistent(b, s),
        0 <= bx < 9,
    ensures
        consistent(b.box_rays(bx), s),
{
    let nb = b.box_rays(bx);
    let r0 = box_row(bx);
    let c0 = box_col(bx);
    assert forall|r: int, c: int| #[trigger] valid_cell(r, c) implies bit(nb.cand(r, c), s[r][c] - 1) by {
        assert(nb.cand(r, c) == b.rayed_cand(bx, r, c));
        assert(bit(b.cand(r, c), s[r][c] - 1));
        if r0 <= r < r0 + 3 && !(c0 <= c < c0 + 3) && b.ray_row_mask(bx, r - r0) != 0 {
            lemma_ray_row_safe(b, s, bx, r - r0, c);
        } else if c0 <= c < c0 + 3 && !(r0 <= r < r0 + 3) && b.ray_col_mask(bx, c - c0) != 0 {
            lemma_ray_col_safe(b, s, bx, c - c0, r);
        }
    }
    assert forall|r: int, c: int|
        #[trigger] valid_cell(r, c) && nb.digit(r, c) != 0 implies nb.digit(r, c) == s[r][c] by {
        assert(b.digit(r, c) != 0);
    }
}

/// Ray casting never loses a solution.
pub proof fn lemma_ray_casting_sound(b: Board, s: Seq<Seq<u8>>, bx: int)
    requires
        b.wf(),
        is_solution(s),
        consistent(b, s),
        0 <= bx,
    ensures
        consistent(b.rays_from(bx).0, s),
    decreases 9 - bx,
{
    if bx < 9 {
        lemma_box_rays_sound(b, s, bx);
        lemma_box_rays(b, bx);
        lemma_ray_casting_sound(b.box_rays(bx), s, bx + 1);
    }
}


/// Writing a digit that is open in the cell's units never puts a digit twice in a unit.
pub proof fn lemma_place_conflict_free(b: Board, r: int, c: int, v: int)
    requires
        b.wf(),
        conflict_free(b),
        valid_cell(r, c),
        b.digit(r, c) == 0,
        1 <= v <= 9,
        open_at(b, r, c, v),
    ensures
        conflict_free(b.place(r, c, v)),
        extends(b.place(r, c, v), b),
{
    let nb = b.place(r, c, v);
    lemma_place_cells(b, r, c, v);
    lemma_box_index(r, c);
    assert forall|u: int, k1: int, k2: int|
        0 <= u < 27 && 0 <= k1 < k2 < 9 && 1 <= #[trigger] nb.unit_digit(u, k1) <= 9 implies nb.unit_digit(u, k1)
            != #[trigger] nb.unit_digit(u, k2) by {
        lemma_unit_geometry(u, k1);
        lemma_unit_geometry(u, k2);
        let (r1, c1) = unit_cell(u, k1);
        let (r2, c2) = unit_cell(u, k2);
        assert(valid_cell(r1, c1) && valid_cell(r2, c2));
        if nb.unit_digit(u, k1) == nb.unit_digit(u, k2) {
            if (r1, c1) == (r, c) {
                assert(b.unit_digit(u, k2) == v);
                assert(b.in_unit(u, v));
                lemma_unit_open_of_cell(b, u, r, c);
            } else if (r2, c2) == (r, c) {
                assert(b.unit_digit(u, k1) == v);
                assert(b.in_unit(u, v));
                lemma_unit_open_of_cell(b, u, r, c);
            } else {
                assert(b.unit_digit(u, k1) == nb.unit_digit(u, k1));
                assert(b.unit_digit(u, k2) == nb.unit_digit(u, k2));
            }
        }
    }
    assert forall|r2: int, c2: int|
        #[trigger] valid_cell(r2, c2) && b.digit(r2, c2) != 0
        implies nb.digit(r2, c2) == b.digit(r2, c2) by {}
}

/// A board that differs only by candidates keeps the digits' properties.
pub proof fn lemma_same_digits(b2: Board, b1: Board)
    requires
        b2.raster == b1.raster,
    ensures
        extends(b2, b1),
        conflict_free(b1) ==> conflict_free(b2),
{
    assert forall|u: int, k: int| #[trigger] b2.unit_digit(u, k) == b1.unit_digit(u, k) by {}
}

pub proof fn lemma_extends_trans(b3: Board, b2: Board, b1: Board)
    requires
        extends(b3, b2),
        extends(b2, b1),
    ensures
        extends(b3, b1),
{
    assert forall|r: int, c: int|
        #[trigger] valid_cell(r, c) && b1.digit(r, c) != 0 implies b3.digit(r, c) == b1.digit(r, c) by {
        assert(b2.digit(r, c) == b1.digit(r, c));
    }
}

/// No cell of `b2` has a candidate that it lacks in `b1`.
pub open spec fn narrows(b2: Board, b1: Board) -> bool {
    forall|r: int, c: int| #[trigger] valid_cell(r, c) ==> bits_within(b2.cand(r, c), b1.cand(r, c))
}

pub proof fn lemma_narrows_trans(b3: Board, b2: Board, b1: Board)
    requires
        narrows(b3, b2),
        narrows(b2, b1),
    ensures
        narrows(b3, b1),
{
    assert forall|r: int, c: int|
        #[trigger] valid_cell(r, c) implies bits_within(b3.cand(r, c), b1.cand(r, c)) by {
        assert(bits_within(b3.cand(r, c), b2.cand(r, c)));
        assert(bits_within(b2.cand(r, c), b1.cand(r, c)));
    }
}

/// Writing one of a cell's candidates into it, or narrowing a cell, removes candidates only.
pub proof fn lemma_place_narrows(b: Board, r: int, c: int, v: int)
    requires
        b.shaped(),
        valid_cell(r, c),
        1 <= v <= 16,
        bit(b.cand(r, c), v - 1),
    ensures
        narrows(b.place(r, c, v), b),
{
    lemma_place_cells(b, r, c, v);
    assert(forall|i: int| #[trigger] bit(digit_mask(v), i) == (i == v - 1));
    assert forall|r2: int, c2: int|
        #[trigger] valid_cell(r2, c2) implies bits_within(b.place(r, c, v).cand(r2, c2), b.cand(r2, c2)) by {}
}

pub proof fn lemma_set_cand_narrows(b: Board, r: int, c: int, m: u16)
    requires
        b.shaped(),
        valid_cell(r, c),
        bits_within(m, b.cand(r, c)),
    ensures
        narrows(b.set_cand(r, c, m), b),
{
    assert forall|r2: int, c2: int|
        #[trigger] valid_cell(r2, c2)
        implies bits_within(b.set_cand(r, c, m).cand(r2, c2), b.cand(r2, c2)) by {}
}

/// Simple elimination removes candidates only.
pub proof fn lemma_simples_narrows(b: Board, r: int, c: int)
    requires
        b.wf(),
        0 <= r,
        0 <= c,
    ensures
        narrows(b.simples_from(r, c).0, b),
    decreases 9 - r, 9 - c,
{
    if r >= 9 {
        assert(narrows(b, b));
    } else if c >= 9 {
        lemma_simples_narrows(b, r + 1, 0);
    } else {
        let (b1, f1) = b.simple_step(r, c);
        crate::rules::lemma_simple_step(b, r, c);
        lemma_simples_narrows(b1, r, c + 1);
        if b.digit(r, c) != 0 {
            assert(narrows(b, b));
        } else {
            let p = b.narrowed(r, c);
            let bn = b.set_cand(r, c, p);
            lemma_set_cand_narrows(b, r, c, p);
            if bit_count(p) == 1 {
                lemma_single_bit(p);
                lemma_set_cand_wf(b, r, c, p);
                lemma_place_narrows(bn, r, c, lowest(p) + 1);
                lemma_narrows_trans(b1, bn, b);
            }
        }
        lemma_narrows_trans(b1.simples_from(r, c + 1).0, b1, b);
    }
}

/// Cell `(r2, c2)` comes at or after `(r, c)` in reading order.
pub open spec fn at_or_after(r2: int, c2: int, r: int, c: int) -> bool {
    r2 > r || (r2 == r && c2 >= c)
}

/// Simple elimination writes digits only where they are open; when it writes
/// none, it only narrows the candidates of the cells it visits.
pub proof fn lemma_simples_outcome(b: Board, r: int, c: int)
    requires
        b.wf(),
        0 <= r,
        0 <= c,
    ensures
        extends(b.simples_from(r, c).0, b),
        conflict_free(b) ==> conflict_free(b.simples_from(r, c).0),
        !b.simples_from(r, c).1 ==> b.simples_from(r, c).0 == (Board {
            possibles: b.simples_from(r, c).0.possibles,
            ..b
        }),
        !b.simples_from(r, c).1 ==> forall|r2: int, c2: int|
            #[trigger] valid_cell(r2, c2) ==> b.simples_from(r, c).0.cand(r2, c2) == if at_or_after(
                r2,
                c2,
                r,
                c,
            ) && b.digit(r2, c2) == 0 {
                b.narrowed(r2, c2)
            } else {
                b.cand(r2, c2)
            },
    decreases 9 - r, 9 - c,
{
    let res = b.simples_from(r, c);
    if r >= 9 {
        assert(extends(b, b));
    } else if c >= 9 {
        lemma_simples_outcome(b, r + 1, 0);
    } else {
        let (b1, f1) = b.simple_step(r, c);
        crate::rules::lemma_simple_step(b, r, c);
        lemma_simples_outcome(b1, r, c + 1);
        if b.digit(r, c) != 0 {
            assert(b1 == b);
        } else {
            let p = b.narrowed(r, c);
            let bn = b.set_cand(r, c, p);
            lemma_set_cand_wf(b, r, c, p);
            lemma_same_digits(bn, b);
            if bit_count(p) == 1 {
                lemma_single_bit(p);
                let v = lowest(p) + 1;
                assert(bit(p, v - 1));
                lemma_place_conflict_free_if(bn, b, r, c, v);
                lemma_extends_trans(b1, bn, b);
            } else {
                assert(b1 == bn);
                if !res.1 {
                    assert forall|r2: int, c2: int|
                        #[trigger] valid_cell(r2, c2) && at_or_after(r2, c2, r, c + 1) && b1.digit(r2, c2) == 0
                        implies b1.narrowed(r2, c2) == b.narrowed(r2, c2) by {
                        assert(r2 != r || c2 != c);
                    }
                }
            }
        }
        lemma_extends_trans(res.0, b1, b);
    }
}

/// The placement step of simple elimination keeps the grid free of conflicts.
proof fn lemma_place_conflict_free_if(bn: Board, b: Board, r: int, c: int, v: int)
    requires
        b.wf(),
        bn == b.set_cand(r, c, b.narrowed(r, c)),
        bn.wf(),
        valid_cell(r, c),
        b.digit(r, c) == 0,
        1 <= v <= 16,
        bit(b.narrowed(r, c), v - 1),
    ensures
        conflict_free(bn) ==> conflict_free(bn.place(r, c, v)),
        extends(bn.place(r, c, v), bn),
        1 <= v <= 9,
{
    let p = b.narrowed(r, c);
    assert(bit(bn.cand(r, c), v - 1));
    assert(open_at(bn, r, c, v));
    assert(v - 1 < 9);
    if conflict_free(bn) {
        lemma_place_conflict_free(bn, r, c, v);
    } else {
        lemma_place_conflict_free_extends(bn, r, c, v);
    }
}

proof fn lemma_place_conflict_free_extends(b: Board, r: int, c: int, v: int)
    requires
        b.shaped(),
        valid_cell(r, c),
        b.digit(r, c) == 0,
    ensures
        extends(b.place(r, c, v), b),
{
    lemma_place_cells(b, r, c, v);
    assert forall|r2: int, c2: int|
        #[trigger] valid_cell(r2, c2) && b.digit(r2, c2) != 0
        implies b.place(r, c, v).digit(r2, c2) == b.digit(r2, c2) by {}
}


/// When simple elimination writes no digit, every empty cell is left with
/// candidates open in its units.
pub proof fn lemma_quiet_simples_refined(b: Board)
    requires
        b.wf(),
        !b.simples().1,
    ensures
        refined(b.simples().0),
{
    let res = b.simples().0;
    lemma_simples_outcome(b, 0, 0);
    assert forall|r: int, c: int, i: int|
        #[trigger] valid_cell(r, c) && res.digit(r, c) == 0 && #[trigger] bit(res.cand(r, c), i) implies open_at(res, r, c, i + 1) by {
        assert(at_or_after(r, c, 0, 0));
        assert(res.cand(r, c) == b.narrowed(r, c));
    }
}

/// From a refined board, exclusive options keep the grid free of conflicts.
pub proof fn lemma_exclusive_outcome(b: Board)
    requires
        b.wf(),
    ensures
        extends(b.exclusive().0, b),
        conflict_free(b) && refined(b) ==> conflict_free(b.exclusive().0),
{
    lemma_first_exclusive(b, 0, 1);
    if let Some((u, v)) = b.first_exclusive(0, 1) {
        lemma_exclusive_cell(b, u, v);
        let (r, c) = b.exclusive_cell(u, v);
        lemma_place_conflict_free_extends(b, r, c, v);
        if conflict_free(b) && refined(b) {
            assert(valid_cell(r, c));
            assert(open_at(b, r, c, v));
            lemma_place_conflict_free(b, r, c, v);
        }
    } else {
        assert(extends(b, b));
    }
}

/// Ray casting only narrows candidates.
pub proof fn lemma_rays_narrow(b: Board, bx: int)
    requires
        b.wf(),
        0 <= bx,
    ensures
        b.rays_from(bx).0 == (Board { possibles: b.rays_from(bx).0.possibles, ..b }),
        forall|r: int, c: int| #[trigger] valid_cell(r, c) ==> bits_within(b.rays_from(bx).0.cand(r, c), b.cand(r, c)),
    decreases 9 - bx,
{
    if bx < 9 {
        let b1 = b.box_rays(bx);
        lemma_box_rays(b, bx);
        lemma_rays_narrow(b1, bx + 1);
        assert forall|r: int, c: int|
            #[trigger] valid_cell(r, c) implies bits_within(b.rays_from(bx).0.cand(r, c), b.cand(r, c)) by {
            assert(b1.cand(r, c) == b.rayed_cand(bx, r, c));
            assert(bits_within(b.rays_from(bx).0.cand(r, c), b1.cand(r, c)));
        }
    }
}

/// Ray casting keeps a refined board refined.
pub proof fn lemma_rays_outcome(b: Board)
    requires
        b.wf(),
    ensures
        b.ray_casting().0.raster == b.raster,
        refined(b) ==> refined(b.ray_casting().0),
{
    let res = b.ray_casting().0;
    lemma_rays_narrow(b, 0);
    if refined(b) {
        assert forall|r: int, c: int, i: int|
            #[trigger] valid_cell(r, c) && res.digit(r, c) == 0 && #[trigger] bit(res.cand(r, c), i) implies open_at(res, r, c, i + 1) by {
            assert(bits_within(res.cand(r, c), b.cand(r, c)));
            assert(bit(b.cand(r, c), i));
        }
    }
}

/// From a refined board, either outcome of testing keeps the grid free of conflicts.
pub proof fn lemma_test_outcome_conflict_free(b: Board, accepted: bool)
    requires
        b.wf(),
        b.test_choice() is Some,
    ensures
        ({
            let (r, c, v) = b.test_choice().unwrap();
            &&& extends(b.test_outcome(r, c, v, accepted), b)
            &&& conflict_free(b) && refined(b) ==> conflict_free(b.test_outcome(r, c, v, accepted))
            &&& conflict_free(b) && refined(b) ==> conflict_free(b.place(r, c, v))
        }),
{
    lemma_test_choice(b);
    let (r, c, v) = b.test_choice().unwrap();
    lemma_place_conflict_free_extends(b, r, c, v);
    let m = b.cand(r, c) & (511u16 ^ digit_mask(v));
    lemma_same_digits(b.set_cand(r, c, m), b);
    if conflict_free(b) && refined(b) {
        assert(valid_cell(r, c));
        assert(open_at(b, r, c, v));
        lemma_place_conflict_free(b, r, c, v);
    }
}

/// The solver never changes a digit once written, and from a grid free of
/// conflicts it never writes a digit twice into a row, column or box.
pub proof fn lemma_solve_outcome(b: Board)
    requires
        b.wf(),
    ensures
        b.solve_outcome().wf(),
        extends(b.solve_outcome(), b),
        narrows(b.solve_outcome(), b),
        conflict_free(b) ==> conflict_free(b.solve_outcome()),
    decreases measure(b),
{
    let (b1, f1) = b.simples();
    let (b2, f2) = b1.exclusive();
    let (b3, f3) = b2.ray_casting();
    lemma_solve_steps(b);
    lemma_simples_outcome(b, 0, 0);
    lemma_exclusive_outcome(b1);
    lemma_exclusive(b1);
    lemma_rays_outcome(b2);
    lemma_same_digits(b3, b2);
    lemma_simples_narrows(b, 0, 0);
    lemma_exclusive_narrows(b1);
    lemma_rays_narrow(b2, 0);
    assert(narrows(b3, b2));
    lemma_narrows_trans(b2, b1, b);
    lemma_narrows_trans(b3, b2, b);
    if b.unsolved_rows == 0 {
        assert(extends(b, b));
        assert(narrows(b, b));
    } else if f1 {
        lemma_solve_outcome(b1);
        lemma_extends_trans(b1.solve_outcome(), b1, b);
        lemma_narrows_trans(b1.solve_outcome(), b1, b);
    } else {
        lemma_quiet_simples_refined(b);
        if b1.unsolved_rows == 0 {
        } else if f2 {
            lemma_solve_outcome(b2);
            lemma_extends_trans(b2.solve_outcome(), b2, b1);
            lemma_extends_trans(b2.solve_outcome(), b1, b);
            lemma_narrows_trans(b2.solve_outcome(), b2, b);
        } else if b2.unsolved_rows == 0 {
        } else if f3 {
            lemma_solve_outcome(b3);
            lemma_extends_trans(b3.solve_outcome(), b3, b2);
            lemma_extends_trans(b3.solve_outcome(), b2, b1);
            lemma_extends_trans(b3.solve_outcome(), b1, b);
            lemma_narrows_trans(b3.solve_outcome(), b3, b);
        } else {
            lemma_extends_trans(b3, b2, b1);
            lemma_extends_trans(b3, b1, b);
            if b3.unsolved_rows == 0 {
            } else if let Some((r, c, v)) = b3.test_choice() {
                let trial = b3.place(r, c, v).solve_outcome();
                let b4 = b3.test_outcome(r, c, v, trial.unsolved_rows == 0);
                lemma_test_outcome_conflict_free(b3, trial.unsolved_rows == 0);
                lemma_test_outcome_narrows(b3, trial.unsolved_rows == 0);
                lemma_solve_outcome(b4);
                lemma_extends_trans(b4.solve_outcome(), b4, b3);
                lemma_extends_trans(b4.solve_outcome(), b3, b);
                lemma_narrows_trans(b4.solve_outcome(), b4, b3);
                lemma_narrows_trans(b4.solve_outcome(), b3, b);
            }
        }
    }
}

/// Exclusive options remove candidates only.
pub proof fn lemma_exclusive_narrows(b: Board)
    requires
        b.wf(),
    ensures
        narrows(b.exclusive().0, b),
{
    lemma_first_exclusive(b, 0, 1);
    if let Some((u, v)) = b.first_exclusive(0, 1) {
        lemma_exclusive_cell(b, u, v);
        let (r, c) = b.exclusive_cell(u, v);
        lemma_place_narrows(b, r, c, v);
    } else {
        assert(narrows(b, b));
    }
}

/// Either outcome of testing removes candidates only.
pub proof fn lemma_test_outcome_narrows(b: Board, accepted: bool)
    requires
        b.wf(),
        b.test_choice() is Some,
    ensures
        ({
            let (r, c, v) = b.test_choice().unwrap();
            narrows(b.test_outcome(r, c, v, accepted), b)
        }),
{
    lemma_test_choice(b);
    let (r, c, v) = b.test_choice().unwrap();
    lemma_place_narrows(b, r, c, v);
    let m = b.cand(r, c) & (511u16 ^ digit_mask(v));
    assert(bits_within(m, b.cand(r, c)));
    lemma_set_cand_narrows(b, r, c, m);
}

/// A grid free of conflicts whose rows are all solved is a solved sudoku.
pub proof fn lemma_complete_is_solution(b: Board)
    requires
        b.wf(),
        conflict_free(b),
        b.unsolved_rows == 0,
    ensures
        is_solution(b.raster),
{
    assert forall|r: int, c: int| #[trigger] valid_cell(r, c) implies 1 <= b.raster[r][c] <= 9 by {
        assert(!bit(b.unsolved_rows, r));
        assert(b.unit_open(r) == 0);
        lemma_full_unit(b, r);
        assert(b.unit_digit(r, c) == b.digit(r, c));
    }
    assert forall|u: int, k1: int, k2: int|
        0 <= u < 27 && 0 <= k1 < k2 < 9 implies #[trigger] unit_value(b.raster, u, k1) != #[trigger] unit_value(b.raster, u, k2) by {
        lemma_unit_geometry(u, k1);
        assert(valid_cell(unit_cell(u, k1).0, unit_cell(u, k1).1));
        assert(b.unit_digit(u, k1) == unit_value(b.raster, u, k1));
        assert(b.unit_digit(u, k2) == unit_value(b.raster, u, k2));
    }
}


/// Givens that agree with a solved sudoku hold no digit twice in a unit.
pub proof fn lemma_agrees_conflict_free(b: Board, s: Seq<Seq<u8>>)
    requires
        is_solution(s),
        agrees(b, s),
    ensures
        conflict_free(b),
{
    assert forall|u: int, k1: int, k2: int|
        0 <= u < 27 && 0 <= k1 < k2 < 9 && 1 <= #[trigger] b.unit_digit(u, k1) <= 9 implies b.unit_digit(u, k1)
            != #[trigger] b.unit_digit(u, k2) by {
        lemma_unit_geometry(u, k1);
        lemma_unit_geometry(u, k2);
        assert(valid_cell(unit_cell(u, k1).0, unit_cell(u, k1).1));
        assert(valid_cell(unit_cell(u, k2).0, unit_cell(u, k2).1));
        if b.unit_digit(u, k1) == b.unit_digit(u, k2) {
            assert(unit_value(s, u, k1) == b.unit_digit(u, k1));
            assert(unit_value(s, u, k2) == b.unit_digit(u, k2));
        }
    }
}

/// A freshly read puzzle fits every solved sudoku that agrees with its givens.
pub proof fn lemma_givens_consistent(b: Board, s: Seq<Seq<u8>>)
    requires
        is_solution(s),
        agrees(b, s),
        forall|r: int, c: int|
            #[trigger] valid_cell(r, c) ==> b.cand(r, c) == if b.digit(r, c) == 0 {
                511u16
            } else {
                digit_mask(b.digit(r, c) as int)
            },
    ensures
        consistent(b, s),
{
    assert forall|r: int, c: int| #[trigger] valid_cell(r, c) implies bit(b.cand(r, c), s[r][c] - 1) by {
        if b.digit(r, c) != 0 {
            assert(bit(digit_mask(b.digit(r, c) as int), b.digit(r, c) - 1));
        }
    }
}

/// The comparison with a solution reports the grid correct exactly when every
/// cell from `(r, c)` on is filled with the solution's digit.
pub proof fn lemma_compare_correct(g: Seq<Seq<u8>>, s: Seq<Seq<u8>>, r: int, c: int)
    requires
        0 <= r,
        0 <= c,
    ensures
        (compare_from(g, s, r, c) == SolveState::Correct) == (forall|r2: int, c2: int|
            #[trigger] valid_cell(r2, c2) && at_or_after(r2, c2, r, c) ==> g[r2][c2] != 0
                && g[r2][c2] == s[r2][c2]),
    decreases 9 - r, 9 - c,
{
    if r >= 9 {
    } else if c >= 9 {
        lemma_compare_correct(g, s, r + 1, 0);
    } else {
        lemma_compare_correct(g, s, r, c + 1);
        assert(valid_cell(r, c));
        if compare_from(g, s, r, c) == SolveState::Correct {
            assert forall|r2: int, c2: int|
                #[trigger] valid_cell(r2, c2) && at_or_after(r2, c2, r, c) implies g[r2][c2] != 0
                    && g[r2][c2] == s[r2][c2] by {
                if r2 == r && c2 == c {
                } else {
                    assert(at_or_after(r2, c2, r, c + 1));
                }
            }
        }
    }
}

/// The solver's promise for a puzzle with a unique solution: if a run solves
/// every row, the grid it leaves is that solution, and comparing the two
/// reports it correct.
pub proof fn lemma_completed_run_is_the_solution(b: Board, s: Seq<Seq<u8>>)
    requires
        b.wf(),
        is_solution(s),
        agrees(b, s),
        forall|t: Seq<Seq<u8>>| #[trigger] is_solution(t) && agrees(b, t) ==> t == s,
        b.solve_outcome().unsolved_rows == 0,
    ensures
        b.solve_outcome().raster == s,
        compare_from(b.solve_outcome().raster, s, 0, 0) == SolveState::Correct,
{
    let o = b.solve_outcome();
    lemma_agrees_conflict_free(b, s);
    lemma_solve_outcome(b);
    lemma_complete_is_solution(o);
    assert forall|r: int, c: int|
        #[trigger] valid_cell(r, c) && b.digit(r, c) != 0 implies b.digit(r, c) == o.raster[r][c] by {}
    assert(is_solution(o.raster) && agrees(b, o.raster));
    lemma_compare_correct(o.raster, s, 0, 0);
    assert forall|r2: int, c2: int|
        #[trigger] valid_cell(r2, c2) && at_or_after(r2, c2, 0, 0) implies o.raster[r2][c2] != 0
        && o.raster[r2][c2] == s[r2][c2] by {}
}

/// Any run of the solver on givens free of conflicts keeps them, never gives a
/// cell back a candidate it lost, writes no digit twice into a row, column or
/// box, and when it solves every row the grid is a solved sudoku.
pub proof fn lemma_solve_is_safe(b: Board)
    requires
        b.wf(),
        conflict_free(b),
    ensures
        extends(b.solve_outcome(), b),
        narrows(b.solve_outcome(), b),
        conflict_free(b.solve_outcome()),
        b.solve_outcome().unsolved_rows == 0 ==> is_solution(b.solve_outcome().raster),
{
    lemma_solve_outcome(b);
    if b.solve_outcome().unsolved_rows == 0 {
        lemma_complete_is_solution(b.solve_outcome());
    }
}


/// Simple elimination over the whole grid never loses a solution: a solved
/// sudoku that fits the board before the sweep fits it after.
pub proof fn lemma_simple_elimination_sound(b: Board, s: Seq<Seq<u8>>)
    requires
        b.wf(),
        is_solution(s),
        consistent(b, s),
    ensures
        consistent(b.simples().0, s),
{
    lemma_simples_sound(b, s, 0, 0);
}

/// Ray casting over all boxes never loses a solution.
pub proof fn lemma_ray_casting_keeps_solution(b: Board, s: Seq<Seq<u8>>)
    requires
        b.wf(),
        is_solution(s),
        consistent(b, s),
    ensures
        consistent(b.ray_casting().0, s),
{
    lemma_ray_casting_sound(b, s, 0);
}

/// Testing accepts a digit only when the trial grid it came from is a solved
/// sudoku that keeps every digit of the board and holds the tested digit: on
/// a board free of conflicts whose empty cells hold only open candidates (as
/// the solver leaves it before it tests).
pub proof fn lemma_testing_accepts_solutions(b: Board)
    requires
        b.wf(),
        conflict_free(b),
        refined(b),
        b.test_choice() is Some,
        ({
            let (r, c, v) = b.test_choice().unwrap();
            b.place(r, c, v).solve_outcome().unsolved_rows == 0
        }),
    ensures
        ({
            let (r, c, v) = b.test_choice().unwrap();
            let trial = b.place(r, c, v).solve_outcome();
            &&& is_solution(trial.raster)
            &&& trial.raster[r][c] == v
            &&& agrees(b, trial.raster)
        }),
{
    let (r, c, v) = b.test_choice().unwrap();
    let start = b.place(r, c, v);
    lemma_test_choice(b);
    lemma_test_outcome_conflict_free(b, true);
    crate::rules::lemma_test_outcome(b, true);
    lemma_solve_is_safe(start);
    let trial = start.solve_outcome();
    lemma_place_cells(b, r, c, v);
    lemma_place_conflict_free_extends(b, r, c, v);
    lemma_extends_trans(trial, start, b);
    assert(valid_cell(r, c));
    assert(start.digit(r, c) == v);
    assert forall|r2: int, c2: int| #[trigger] valid_cell(r2, c2) && b.digit(r2, c2) != 0 implies b.digit(r2, c2)
        == trial.raster[r2][c2] by {}
}

/// When a sweep of simple elimination writes no digit, no empty cell it
/// visited was left with exactly one candidate.
pub proof fn lemma_quiet_simples_counts(b: Board, r: int, c: int)
    requires
        b.wf(),
        0 <= r,
        0 <= c,
    ensures
        !b.simples_from(r, c).1 ==> forall|r2: int, c2: int|
            #[trigger] valid_cell(r2, c2) && at_or_after(r2, c2, r, c) && b.digit(r2, c2) == 0
                ==> bit_count(b.narrowed(r2, c2)) != 1,
    decreases 9 - r, 9 - c,
{
    if r >= 9 {
    } else if c >= 9 {
        lemma_quiet_simples_counts(b, r + 1, 0);
    } else {
        let (b1, f1) = b.simple_step(r, c);
        crate::rules::lemma_simple_step(b, r, c);
        lemma_quiet_simples_counts(b1, r, c + 1);
        if !b.simples_from(r, c).1 {
            assert forall|r2: int, c2: int|
                #[trigger] valid_cell(r2, c2) && at_or_after(r2, c2, r, c) && b.digit(r2, c2) == 0
                implies bit_count(b.narrowed(r2, c2)) != 1 by {
                if r2 == r && c2 == c {
                } else {
                    assert(at_or_after(r2, c2, r, c + 1));
                    assert(b1.digit(r2, c2) == b.digit(r2, c2));
                    assert(b1.narrowed(r2, c2) == b.narrowed(r2, c2));
                }
            }
        }
    }
}

/// Ray casting that reports no progress leaves the board as it was.
pub proof fn lemma_quiet_rays(b: Board, bx: int)
    ensures
        !b.rays_from(bx).1 ==> b.rays_from(bx).0 == b,
    decreases 9 - bx,
{
    if bx < 9 {
        lemma_quiet_rays(b.box_rays(bx), bx + 1);
    }
}

/// Every digit that `b2` has and `b1` lacks was a candidate of its cell in `b1`.
pub open spec fn drawn_from(b2: Board, b1: Board) -> bool {
    forall|r: int, c: int|
        #[trigger] valid_cell(r, c) && b2.digit(r, c) != b1.digit(r, c) ==> bit(
            b1.cand(r, c),
            b2.digit(r, c) - 1,
        )
}

pub proof fn lemma_drawn_trans(b3: Board, b2: Board, b1: Board)
    requires
        drawn_from(b3, b2),
        drawn_from(b2, b1),
        narrows(b2, b1),
    ensures
        drawn_from(b3, b1),
{
    assert forall|r: int, c: int|
        #[trigger] valid_cell(r, c) && b3.digit(r, c) != b1.digit(r, c) implies bit(
        b1.cand(r, c),
        b3.digit(r, c) - 1,
    ) by {
        assert(bits_within(b2.cand(r, c), b1.cand(r, c)));
        if b3.digit(r, c) == b2.digit(r, c) {
        } else {
            assert(bit(b2.cand(r, c), b3.digit(r, c) - 1));
        }
    }
}

/// Writing one of a cell's candidates into it draws the digit from the candidates.
pub proof fn lemma_place_drawn(b: Board, r: int, c: int, v: int)
    requires
        b.shaped(),
        valid_cell(r, c),
        1 <= v <= 16,
        bit(b.cand(r, c), v - 1),
    ensures
        drawn_from(b.place(r, c, v), b),
{
    lemma_place_cells(b, r, c, v);
}

/// Simple elimination draws every digit it writes from the cell's candidates.
pub proof fn lemma_simples_drawn(b: Board, r: int, c: int)
    requires
        b.wf(),
        0 <= r,
        0 <= c,
    ensures
        drawn_from(b.simples_from(r, c).0, b),
    decreases 9 - r, 9 - c,
{
    if r >= 9 {
    } else if c >= 9 {
        lemma_simples_drawn(b, r + 1, 0);
    } else {
        let (b1, f1) = b.simple_step(r, c);
        crate::rules::lemma_simple_step(b, r, c);
        lemma_simples_drawn(b1, r, c + 1);
        lemma_simples_narrows(b, r, c);
        if b.digit(r, c) == 0 {
            let p = b.narrowed(r, c);
            let bn = b.set_cand(r, c, p);
            lemma_set_cand_narrows(b, r, c, p);
            if bit_count(p) == 1 {
                lemma_single_bit(p);
                lemma_set_cand_wf(b, r, c, p);
                lemma_place_drawn(bn, r, c, lowest(p) + 1);
                lemma_place_narrows(bn, r, c, lowest(p) + 1);
                lemma_drawn_trans(b1, bn, b);
                lemma_narrows_trans(b1, bn, b);
            }
        } else {
            assert(narrows(b, b));
        }
        lemma_narrows_trans(b1, b1, b);
        lemma_drawn_trans(b1.simples_from(r, c + 1).0, b1, b);
    }
}

/// Every digit a run of the solver writes was a candidate of its cell.
pub proof fn lemma_solve_drawn(b: Board)
    requires
        b.wf(),
    ensures
        drawn_from(b.solve_outcome(), b),
    decreases measure(b),
{
    let (b1, f1) = b.simples();
    let (b2, f2) = b1.exclusive();
    let (b3, f3) = b2.ray_casting();
    lemma_solve_steps(b);
    lemma_simples_drawn(b, 0, 0);
    lemma_simples_narrows(b, 0, 0);
    lemma_exclusive_narrows(b1);
    lemma_rays_narrow(b2, 0);
    lemma_rays_outcome(b2);
    assert(narrows(b3, b2));
    assert(drawn_from(b3, b2));
    lemma_first_exclusive(b1, 0, 1);
    if let Some((u, v)) = b1.first_exclusive(0, 1) {
        lemma_exclusive_cell(b1, u, v);
        let (r, c) = b1.exclusive_cell(u, v);
        lemma_place_drawn(b1, r, c, v);
    }
    assert(drawn_from(b2, b1));
    lemma_drawn_trans(b2, b1, b);
    lemma_narrows_trans(b2, b1, b);
    lemma_drawn_trans(b3, b2, b);
    lemma_narrows_trans(b3, b2, b);
    if b.unsolved_rows == 0 {
    } else if f1 {
        lemma_solve_drawn(b1);
        lemma_drawn_trans(b1.solve_outcome(), b1, b);
    } else if b1.unsolved_rows == 0 {
    } else if f2 {
        lemma_solve_drawn(b2);
        lemma_drawn_trans(b2.solve_outcome(), b2, b);
    } else if b2.unsolved_rows == 0 {
    } else if f3 {
        lemma_solve_drawn(b3);
        lemma_drawn_trans(b3.solve_outcome(), b3, b);
    } else if b3.unsolved_rows == 0 {
    } else if let Some((r, c, v)) = b3.test_choice() {
        let trial = b3.place(r, c, v).solve_outcome();
        let b4 = b3.test_outcome(r, c, v, trial.unsolved_rows == 0);
        lemma_test_choice(b3);
        lemma_test_outcome_narrows(b3, trial.unsolved_rows == 0);
        lemma_place_drawn(b3, r, c, v);
        assert(drawn_from(b4, b3));
        lemma_solve_drawn(b4);
        lemma_drawn_trans(b4.solve_outcome(), b4, b3);
        lemma_drawn_trans(b4.solve_outcome(), b3, b);
    }
}

/// On a board that fits a solved sudoku and where simple elimination, exclusive
/// options and ray casting all report no progress, a row still unsolved holds
/// a cell that testing can try.
pub proof fn lemma_stuck_board_has_test(b: Board, g: Seq<Seq<u8>>)
    requires
        b.wf(),
        is_solution(g),
        consistent(b, g),
        !b.simples().1,
        b.unsolved_rows != 0,
    ensures
        b.simples().0.test_choice() is Some,
{
    let b1 = b.simples().0;
    lemma_simples_outcome(b, 0, 0);
    lemma_quiet_simples_counts(b, 0, 0);
    lemma_simple_elimination_sound(b, g);
    lemma_zero_iff_no_bits(b.unsolved_rows);
    let r = choose|r: int| 0 <= r < 16 && bit(b.unsolved_rows, r);
    assert(0 <= r < 9 && b.rows_options[r] != 0);
    lemma_zero_iff_no_bits(b.rows_options[r]);
    let i = choose|i: int| 0 <= i < 16 && bit(b.rows_options[r], i);
    assert(b.unit_open(r) == b.rows_options[r]);
    assert(bit(b.unit_open(r), i));
    assert(0 <= i < 9 && !b.in_unit(r, i + 1));
    lemma_solution_has_all(g, r, i + 1);
    let c = choose|k: int| 0 <= k < 9 && #[trigger] unit_value(g, r, k) == i + 1;
    assert(valid_cell(r, c));
    if b.digit(r, c) != 0 {
        assert(b.unit_digit(r, c) == i + 1);
    }
    assert(b1.digit(r, c) == 0);
    assert(at_or_after(r, c, 0, 0));
    assert(b1.cand(r, c) == b.narrowed(r, c));
    assert(bit(b1.cand(r, c), g[r][c] - 1));
    crate::bits::lemma_count_pos(b1.cand(r, c), 0, g[r][c] - 1);
    assert(b1.testable(r, c));
    crate::rules::lemma_test_cell_found(b1, 0, 0, r, c);
}

/// A run of the solver on a board that fits a solved sudoku solves every row.
pub proof fn lemma_solvable_is_solved(b: Board, g: Seq<Seq<u8>>)
    requires
        b.wf(),
        is_solution(g),
        consistent(b, g),
    ensures
        b.solve_outcome().unsolved_rows == 0,
    decreases measure(b),
{
    let (b1, f1) = b.simples();
    let (b2, f2) = b1.exclusive();
    let (b3, f3) = b2.ray_casting();
    lemma_solve_steps(b);
    lemma_simple_elimination_sound(b, g);
    lemma_exclusive_sound(b1, g);
    lemma_exclusive(b1);
    lemma_ray_casting_keeps_solution(b2, g);
    if b.unsolved_rows == 0 {
    } else if f1 {
        lemma_solvable_is_solved(b1, g);
    } else if b1.unsolved_rows == 0 {
    } else if f2 {
        lemma_solvable_is_solved(b2, g);
    } else if b2.unsolved_rows == 0 {
    } else if f3 {
        lemma_solvable_is_solved(b3, g);
    } else if b3.unsolved_rows == 0 {
    } else {
        lemma_quiet_rays(b2, 0);
        assert(b3 == b1);
        assert(b.unsolved_rows != 0);
        lemma_stuck_board_has_test(b, g);
        let (r, c, v) = b3.test_choice().unwrap();
        lemma_test_choice(b3);
        let start = b3.place(r, c, v);
        let trial = start.solve_outcome();
        let accepted = trial.unsolved_rows == 0;
        let b4 = b3.test_outcome(r, c, v, accepted);
        assert(valid_cell(r, c));
        if g[r][c] == v {
            lemma_place_consistent(b3, g, r, c);
            lemma_solvable_is_solved(start, g);
            assert(accepted);
            lemma_solvable_is_solved(b4, g);
        } else if accepted {
            lemma_quiet_simples_refined(b);
            lemma_agrees_conflict_free(b3, g);
            lemma_test_outcome_conflict_free(b3, true);
            lemma_solve_is_safe(start);
            lemma_solve_outcome(start);
            lemma_place_cells(b3, r, c, v);
            lemma_solve_drawn(start);
            let t = trial.raster;
            lemma_complete_is_solution(trial);
            assert(consistent(b3, t)) by {
                assert forall|r2: int, c2: int| #[trigger] valid_cell(r2, c2) && b3.digit(r2, c2) != 0 implies b3.digit(r2, c2) == t[r2][c2] by {
                    assert(start.digit(r2, c2) == b3.digit(r2, c2));
                }
                assert forall|r2: int, c2: int| #[trigger] valid_cell(r2, c2) implies bit(b3.cand(r2, c2), t[r2][c2] - 1) by {
                    if b3.digit(r2, c2) != 0 {
                        assert(start.digit(r2, c2) == b3.digit(r2, c2));
                        assert(b3.digit(r2, c2) == g[r2][c2]);
                    } else if r2 == r && c2 == c {
                        assert(start.digit(r2, c2) == v);
                    } else {
                        assert(start.digit(r2, c2) == 0);
                        assert(start.cand(r2, c2) == b3.cand(r2, c2));
                    }
                }
            }
            assert(t[r][c] == v) by {
                assert(start.digit(r, c) == v);
            }
            lemma_place_consistent(b3, t, r, c);
            lemma_solvable_is_solved(b4, t);
        } else {
            let m = b3.cand(r, c) & (511u16 ^ digit_mask(v));
            assert(forall|i: int| #[trigger] bit(digit_mask(v), i) == (i == v - 1));
            assert(bit(b3.cand(r, c), g[r][c] - 1));
            assert(bit(m, g[r][c] - 1));
            lemma_narrow_consistent(b3, g, r, c, m);
            lemma_solvable_is_solved(b4, g);
        }
    }
}

/// Some solved sudoku agrees with every digit of the board.
pub open spec fn solvable(b: Board) -> bool {
    exists|g: Seq<Seq<u8>>| #[trigger] is_solution(g) && agrees(b, g)
}

/// `g` is the one solved sudoku that agrees with the board's digits.
pub open spec fn only_solution(b: Board, g: Seq<Seq<u8>>) -> bool {
    &&& is_solution(g)
    &&& agrees(b, g)
    &&& forall|t: Seq<Seq<u8>>| #[trigger] is_solution(t) && agrees(b, t) ==> t == g
}

/// A puzzle with exactly one solution is completed, and the grid the solver
/// leaves is that solution.
pub proof fn lemma_unique_puzzle_is_solved(b: Board, g: Seq<Seq<u8>>)
    requires
        b.wf(),
        is_solution(g),
        consistent(b, g),
        forall|t: Seq<Seq<u8>>| #[trigger] is_solution(t) && agrees(b, t) ==> t == g,
    ensures
        b.solve_outcome().unsolved_rows == 0,
        b.solve_outcome().raster == g,
{
    lemma_solvable_is_solved(b, g);
    lemma_completed_run_is_the_solution(b, g);
}

/// A freshly read puzzle (each empty cell with every candidate) that some
/// solved sudoku agrees with is completed, and the grid the solver leaves is
/// a solved sudoku that keeps every given.
pub proof fn lemma_puzzle_is_solved(b: Board, g: Seq<Seq<u8>>)
    requires
        b.wf(),
        given_candidates(b),
        is_solution(g),
        agrees(b, g),
    ensures
        b.solve_outcome().unsolved_rows == 0,
        is_solution(b.solve_outcome().raster),
        agrees(b, b.solve_outcome().raster),
{
    lemma_givens_consistent(b, g);
    lemma_solvable_is_solved(b, g);
    lemma_agrees_conflict_free(b, g);
    lemma_solve_is_safe(b);
    let o = b.solve_outcome();
    assert forall|r: int, c: int|
        #[trigger] valid_cell(r, c) && b.digit(r, c) != 0 implies b.digit(r, c) == o.raster[r][c] by {}
}

/// On a freshly read puzzle free of conflicts, the solver completes the grid
/// exactly when some solved sudoku agrees with the givens.
pub proof fn lemma_solved_iff_solvable(b: Board)
    requires
        b.wf(),
        given_candidates(b),
        conflict_free(b),
    ensures
        (b.solve_outcome().unsolved_rows == 0) == solvable(b),
{
    let o = b.solve_outcome();
    if solvable(b) {
        let g = choose|g: Seq<Seq<u8>>| #[trigger] is_solution(g) && agrees(b, g);
        lemma_puzzle_is_solved(b, g);
    }
    if o.unsolved_rows == 0 {
        lemma_solve_is_safe(b);
        assert forall|r: int, c: int|
            #[trigger] valid_cell(r, c) && b.digit(r, c) != 0 implies b.digit(r, c) == o.raster[r][c] by {}
        assert(is_solution(o.raster) && agrees(b, o.raster));
    }
}

/// Narrowing twice by the same open digits narrows no further.
proof fn lemma_narrow_twice(a: u16, x: u16, y: u16, z: u16)
    ensures
        (a & x & y & z) & x & y & z == a & x & y & z,
{
    assert((a & x & y & z) & x & y & z == a & x & y & z) by (bit_vector);
}

/// Simple elimination leaves alone a board whose empty cells, from `(r, c)`
/// on, hold only open candidates and not just one of them.
proof fn lemma_settled_simples(b: Board, r: int, c: int)
    requires
        b.wf(),
        0 <= r,
        0 <= c,
        forall|r2: int, c2: int|
            #[trigger] valid_cell(r2, c2) && at_or_after(r2, c2, r, c) && b.digit(r2, c2) == 0
                ==> b.narrowed(r2, c2) == b.cand(r2, c2) && bit_count(b.cand(r2, c2)) != 1,
    ensures
        b.simples_from(r, c) == (b, false),
    decreases 9 - r, 9 - c,
{
    if r >= 9 {
    } else if c >= 9 {
        assert forall|r2: int, c2: int|
            #[trigger] valid_cell(r2, c2) && at_or_after(r2, c2, r + 1, 0) implies at_or_after(r2, c2, r, c) by {}
        lemma_settled_simples(b, r + 1, 0);
    } else {
        assert(valid_cell(r, c));
        assert(at_or_after(r, c, r, c));
        if b.digit(r, c) == 0 {
            assert(b.set_cand(r, c, b.cand(r, c)).possibles =~~= b.possibles);
            assert(b.set_cand(r, c, b.narrowed(r, c)) == b);
        }
        assert(b.simple_step(r, c) == (b, false));
        assert forall|r2: int, c2: int|
            #[trigger] valid_cell(r2, c2) && at_or_after(r2, c2, r, c + 1) implies at_or_after(r2, c2, r, c) by {}
        lemma_settled_simples(b, r, c + 1);
    }
}

/// A sweep of simple elimination that writes no digit leaves a board on
/// which a second sweep does nothing.
pub proof fn lemma_quiet_simples_settle(b: Board)
    requires
        b.wf(),
        !b.simples().1,
    ensures
        b.simples().0.simples() == (b.simples().0, false),
{
    let b1 = b.simples().0;
    lemma_simples_outcome(b, 0, 0);
    lemma_quiet_simples_counts(b, 0, 0);
    crate::rules::lemma_solve_steps(b);
    assert forall|r2: int, c2: int|
        #[trigger] valid_cell(r2, c2) && at_or_after(r2, c2, 0, 0) && b1.digit(r2, c2) == 0 implies b1.narrowed(r2, c2)
        == b1.cand(r2, c2) && bit_count(b1.cand(r2, c2)) != 1 by {
        assert(b1.cand(r2, c2) == b.narrowed(r2, c2));
        lemma_narrow_twice(
            b.cand(r2, c2),
            b.rows_options[r2],
            b.columns_options[c2],
            b.inner_box_options[box_index(r2, c2)],
        );
    }
    lemma_settled_simples(b1, 0, 0);
}

/// When a run of the solver leaves a row unsolved, no technique makes further
/// progress on the grid it leaves: simple elimination, exclusive options and
/// ray casting report none, and testing finds no cell to try.
pub proof fn lemma_unsolved_run_is_stuck(b: Board)
    requires
        b.wf(),
    ensures
        b.solve_outcome().unsolved_rows != 0 ==> {
            let o = b.solve_outcome();
            &&& !o.simples().1
            &&& !o.exclusive().1
            &&& !o.ray_casting().1
            &&& o.test_choice() is None
        },
    decreases measure(b),
{
    let (b1, f1) = b.simples();
    let (b2, f2) = b1.exclusive();
    let (b3, f3) = b2.ray_casting();
    lemma_solve_steps(b);
    if b.unsolved_rows == 0 {
    } else if f1 {
        lemma_unsolved_run_is_stuck(b1);
    } else if b1.unsolved_rows == 0 {
    } else if f2 {
        lemma_unsolved_run_is_stuck(b2);
    } else if b2.unsolved_rows == 0 {
    } else if f3 {
        lemma_unsolved_run_is_stuck(b3);
    } else if b3.unsolved_rows == 0 {
    } else if let Some((r, c, v)) = b3.test_choice() {
        let trial = b3.place(r, c, v).solve_outcome();
        let b4 = b3.test_outcome(r, c, v, trial.unsolved_rows == 0);
        lemma_unsolved_run_is_stuck(b4);
    } else {
        lemma_quiet_rays(b2, 0);
        assert(b2 == b1);
        assert(b3 == b1);
        lemma_quiet_simples_settle(b);
    }
}

proof fn bv_not(a: u16, i: u16)
    by (bit_vector)
    requires
        i < 16,
    ensures
        (((!a) >> i) & 1u16 == 1u16) == !((a >> i) & 1u16 == 1u16),
{
}

/// The digits placed in the first `n` cells of unit `u`, as a mask: the OR of
/// the digit masks of the filled cells.
pub open spec fn placed_mask(b: Board, u: int, n: int) -> u16
    decreases n,
{
    if n <= 0 {
        0u16
    } else {
        let d = b.unit_digit(u, n - 1);
        placed_mask(b, u, n - 1) | if d > 0 {
            digit_mask(d as int)
        } else {
            0u16
        }
    }
}

proof fn lemma_placed_mask_bits(b: Board, u: int, n: int)
    requires
        b.wf(),
        0 <= u < 27,
        0 <= n <= 9,
    ensures
        forall|i: int|
            #[trigger] bit(placed_mask(b, u, n), i) == (0 <= i < 16 && exists|k: int|
                0 <= k < n && #[trigger] b.unit_digit(u, k) == i + 1),
    decreases n,
{
    if n > 0 {
        lemma_placed_mask_bits(b, u, n - 1);
        let d = b.unit_digit(u, n - 1);
        lemma_unit_geometry(u, n - 1);
        assert(d <= 16);
        let pm0 = placed_mask(b, u, n - 1);
        let x = if d > 0 {
            digit_mask(d as int)
        } else {
            0u16
        };
        assert(placed_mask(b, u, n) == pm0 | x);
        assert forall|i: int|
            #[trigger] bit(placed_mask(b, u, n), i) == (0 <= i < 16 && exists|k: int|
                0 <= k < n && #[trigger] b.unit_digit(u, k) == i + 1) by {
            assert(bit(pm0 | x, i) == (bit(pm0, i) || bit(x, i)));
            if d > 0 {
                assert(bit(digit_mask(d as int), i) == (i == d - 1));
            } else {
                assert(!bit(0u16, i));
            }
            assert(bit(x, i) == (0 <= i < 16 && d == i + 1));
            let e0 = exists|k: int| 0 <= k < n - 1 && #[trigger] b.unit_digit(u, k) == i + 1;
            let e1 = exists|k: int| 0 <= k < n && #[trigger] b.unit_digit(u, k) == i + 1;
            if e1 {
                let k = choose|k: int| 0 <= k < n && #[trigger] b.unit_digit(u, k) == i + 1;
                if k < n - 1 {
                    assert(e0);
                } else {
                    assert(d == i + 1);
                }
            }
            if e0 {
                let k = choose|k: int| 0 <= k < n - 1 && #[trigger] b.unit_digit(u, k) == i + 1;
                assert(0 <= k < n && b.unit_digit(u, k) == i + 1);
                assert(e1);
            }
            if d == i + 1 {
                assert(b.unit_digit(u, n - 1) == i + 1);
                assert(e1);
            }
        }
    }
}

/// The open digits a board records for each unit are the nine digits less
/// those placed in the unit: `511 & !(OR of the digit masks of its cells)`.
pub proof fn lemma_open_digits_fold(b: Board, u: int)
    requires
        b.wf(),
        0 <= u < 27,
    ensures
        b.unit_open(u) == 511u16 & !placed_mask(b, u, 9),
{
    lemma_placed_mask_bits(b, u, 9);
    let pm = placed_mask(b, u, 9);
    assert forall|i: int| 0 <= i < 16 implies bit(b.unit_open(u), i) == bit(511u16 & !pm, i) by {
        bv_not(pm, i as u16);
        assert(bit(!pm, i) == !bit(pm, i));
        if bit(pm, i) {
            let k = choose|k: int| 0 <= k < 9 && #[trigger] b.unit_digit(u, k) == i + 1;
            assert(b.in_unit(u, i + 1));
        }
        if 0 <= i < 9 && b.in_unit(u, i + 1) {
            let k = choose|k: int| 0 <= k < 9 && #[trigger] b.unit_digit(u, k) == i + 1;
            assert(bit(pm, i));
        }
    }
    crate::bits::lemma_bits_ext(b.unit_open(u), 511u16 & !pm);
}

/// Digit `v` is open in unit `u` and the unit's `k`-th cell is the only one
/// of its nine cells that has `v` among its candidates.
pub open spec fn hidden_single(b: Board, u: int, v: int, k: int) -> bool {
    &&& 0 <= u < 27
    &&& 1 <= v <= 9
    &&& 0 <= k < 9
    &&& bit(b.unit_open(u), v - 1)
    &&& bit(b.unit_cand(u, k), v - 1)
    &&& forall|j: int| 0 <= j < 9 && j != k ==> !#[trigger] bit(b.unit_cand(u, j), v - 1)
}

proof fn lemma_holders_of_single(b: Board, u: int, v: int, k: int, n: int)
    requires
        hidden_single(b, u, v, k),
        0 <= n <= 9,
    ensures
        b.holders_upto(u, v, n) == if k < n { 1nat } else { 0nat },
    decreases n,
{
    if n > 0 {
        lemma_holders_of_single(b, u, v, k, n - 1);
        if n - 1 != k {
            assert(!bit(b.unit_cand(u, n - 1), v - 1));
        }
    }
}

proof fn lemma_first_exclusive_reaches(b: Board, u0: int, v0: int, u: int, v: int)
    requires
        0 <= u0,
        1 <= v0,
        u0 < u || (u0 == u && v0 <= v),
        0 <= u < 27,
        1 <= v <= 9,
        b.exclusive_at(u, v),
    ensures
        b.first_exclusive(u0, v0) is Some,
    decreases 27 - u0, 10 - v0,
{
    if u0 >= 27 {
    } else if v0 > 9 {
        lemma_first_exclusive_reaches(b, u0 + 1, 1, u, v);
    } else if b.exclusive_at(u0, v0) {
    } else {
        lemma_first_exclusive_reaches(b, u0, v0 + 1, u, v);
    }
}

/// Exclusive options makes progress whenever some row, column or box has an
/// open digit that only one of its cells can take.
pub proof fn lemma_exclusive_finds_hidden_single(b: Board, u: int, v: int, k: int)
    requires
        b.wf(),
        hidden_single(b, u, v, k),
    ensures
        b.exclusive().1,
        b.exclusive().0 != b,
{
    lemma_holders_of_single(b, u, v, k, 9);
    assert(b.exclusive_at(u, v));
    lemma_first_exclusive_reaches(b, 0, 1, u, v);
    lemma_exclusive_writes_hidden_single(b);
}

/// When exclusive options reports progress, it has written an open digit into
/// the only cell of some row, column or box that can take it, and changed
/// nothing else; when it reports none, no unit holds such a digit.
pub proof fn lemma_exclusive_writes_hidden_single(b: Board)
    requires
        b.wf(),
    ensures
        b.exclusive().1 ==> exists|u: int, v: int, k: int|
            #[trigger] hidden_single(b, u, v, k) && b.exclusive().0 == b.place(
                unit_cell(u, k).0,
                unit_cell(u, k).1,
                v,
            ) && b.digit(unit_cell(u, k).0, unit_cell(u, k).1) == 0,
        b.exclusive().1 ==> b.exclusive().0 != b,
        !b.exclusive().1 ==> b.exclusive().0 == b,
{
    lemma_first_exclusive(b, 0, 1);
    if let Some((u, v)) = b.first_exclusive(0, 1) {
        lemma_exclusive_cell(b, u, v);
        crate::rules::lemma_holders_exist(b, u, v, 9);
        let k = choose|k: int| 0 <= k < 9 && bit(b.unit_cand(u, k), v - 1);
        lemma_single_holder(b, u, v, 9, k);
        lemma_unit_geometry(u, k);
        assert(hidden_single(b, u, v, k));
        let (r, c) = b.exclusive_cell(u, v);
        lemma_place_cells(b, r, c, v);
        assert(b.place(r, c, v).digit(r, c) == v);
        assert(b.place(r, c, v) != b);
    }
}

/// No unit holds a hidden single after exclusive options reports no progress.
pub proof fn lemma_quiet_exclusive_leaves_no_hidden_single(b: Board, u: int, v: int, k: int)
    requires
        b.wf(),
        !b.exclusive().1,
    ensures
        !hidden_single(b, u, v, k),
{
    if hidden_single(b, u, v, k) {
        lemma_exclusive_finds_hidden_single(b, u, v, k);
    }
}

/// Digit `d` is open in box `bx`, and every cell of the box that has `d`
/// among its candidates lies in the box's `i`-th column.
pub open spec fn confined_to_col(b: Board, bx: int, i: int, d: int) -> bool {
    &&& bit(b.inner_box_options[bx], d - 1)
    &&& forall|r: int, c: int|
        box_row(bx) <= r < box_row(bx) + 3 && box_col(bx) <= c < box_col(bx) + 3 && #[trigger] bit(
            b.cand(r, c),
            d - 1,
        ) ==> c == box_col(bx) + i
}

/// Digit `d` is open in box `bx`, and every cell of the box that has `d`
/// among its candidates lies in the box's `i`-th row.
pub open spec fn confined_to_row(b: Board, bx: int, i: int, d: int) -> bool {
    &&& bit(b.inner_box_options[bx], d - 1)
    &&& forall|r: int, c: int|
        box_row(bx) <= r < box_row(bx) + 3 && box_col(bx) <= c < box_col(bx) + 3 && #[trigger] bit(
            b.cand(r, c),
            d - 1,
        ) ==> r == box_row(bx) + i
}

/// The cell of box `bx` where solved sudoku `g` has digit `d`, a holder of
/// `d` on a board that `g` fits.
proof fn lemma_solution_cell_in_box(b: Board, g: Seq<Seq<u8>>, bx: int, d: int) -> (cell: (int, int))
    requires
        b.wf(),
        is_solution(g),
        consistent(b, g),
        0 <= bx < 9,
        1 <= d <= 9,
    ensures
        box_row(bx) <= cell.0 < box_row(bx) + 3,
        box_col(bx) <= cell.1 < box_col(bx) + 3,
        bit(b.cand(cell.0, cell.1), d - 1),
{
    let u = 18 + bx;
    lemma_solution_has_all(g, u, d);
    let k = choose|k: int| 0 <= k < 9 && #[trigger] unit_value(g, u, k) == d;
    lemma_unit_geometry(u, k);
    let (r, c) = unit_cell(u, k);
    assert(valid_cell(r, c));
    assert(bit(b.cand(r, c), g[r][c] - 1));
    (r, c)
}

/// Ray casting from one box only narrows; a confinement seen on the board
/// before it stays true after it.
proof fn lemma_box_rays_keep_confined(x: Board, j: int, bx: int, i: int, d: int)
    requires
        x.wf(),
        0 <= j < 9,
        0 <= bx < 9,
    ensures
        confined_to_col(x, bx, i, d) ==> confined_to_col(x.box_rays(j), bx, i, d),
        confined_to_row(x, bx, i, d) ==> confined_to_row(x.box_rays(j), bx, i, d),
{
    let x1 = x.box_rays(j);
    lemma_rays_narrow(x, j);
    assert forall|r: int, c: int|
        box_row(bx) <= r < box_row(bx) + 3 && box_col(bx) <= c < box_col(bx) + 3 && #[trigger] bit(
            x1.cand(r, c),
            d - 1,
        ) implies bit(x.cand(r, c), d - 1) by {
        assert(valid_cell(r, c));
        assert(x1.cand(r, c) == x.rayed_cand(j, r, c));
        assert(bits_within(x.rayed_cand(j, r, c), x.cand(r, c)));
    }
}

/// Ray casting from box `bx` strikes a digit confined to one col of the
/// box from the rest of that col.
proof fn lemma_box_ray_strikes_col(x: Board, g: Seq<Seq<u8>>, bx: int, i: int, d: int)
    requires
        x.wf(),
        is_solution(g),
        consistent(x, g),
        0 <= bx < 9,
        0 <= i < 3,
        1 <= d <= 9,
        confined_to_col(x, bx, i, d),
    ensures
        forall|r: int|
            0 <= r < 9 && !(box_row(bx) <= r < box_row(bx) + 3) ==> !#[trigger] bit(
                x.box_rays(bx).cand(r, box_col(bx) + i),
                d - 1,
            ),
{
    let c = box_col(bx) + i;
    let r0 = box_row(bx);
    let c0 = box_col(bx);
    let cell = lemma_solution_cell_in_box(x, g, bx, d);
    assert(cell.1 == c);
    assert(bit(x.box_col_options(bx, i), d - 1)) by {
        assert(cell.0 == r0 || cell.0 == r0 + 1 || cell.0 == r0 + 2);
    }
    assert forall|i2: int| 0 <= i2 < 3 && i2 != i implies !bit(x.box_col_options(bx, i2), d - 1) by {
        let c2 = c0 + i2;
        assert(!bit(x.cand(r0, c2), d - 1));
        assert(!bit(x.cand(r0 + 1, c2), d - 1));
        assert(!bit(x.cand(r0 + 2, c2), d - 1));
    }
    assert((i + 1) % 3 != i && (i + 2) % 3 != i && 0 <= (i + 1) % 3 < 3 && 0 <= (i + 2) % 3 < 3);
    assert(bit(x.ray_col_mask(bx, i), d - 1));
    assert(x.ray_col_mask(bx, i) != 0);
    assert forall|r: int|
        0 <= r < 9 && !(box_row(bx) <= r < box_row(bx) + 3) implies !#[trigger] bit(
        x.box_rays(bx).cand(r, c),
        d - 1,
    ) by {
        assert(valid_cell(r, c));
        assert(x.box_rays(bx).cand(r, c) == x.rayed_cand(bx, r, c));
    }
}

proof fn lemma_rays_strike_col(x: Board, g: Seq<Seq<u8>>, j: int, bx: int, i: int, d: int)
    requires
        x.wf(),
        is_solution(g),
        consistent(x, g),
        0 <= j <= bx < 9,
        0 <= i < 3,
        1 <= d <= 9,
        confined_to_col(x, bx, i, d),
    ensures
        forall|r: int|
            0 <= r < 9 && !(box_row(bx) <= r < box_row(bx) + 3) ==> !#[trigger] bit(
                x.rays_from(j).0.cand(r, box_col(bx) + i),
                d - 1,
            ),
    decreases bx - j,
{
    let x1 = x.box_rays(j);
    lemma_box_rays(x, j);
    lemma_box_rays_sound(x, g, j);
    if j < bx {
        lemma_box_rays_keep_confined(x, j, bx, i, d);
        lemma_rays_strike_col(x1, g, j + 1, bx, i, d);
        assert(x.rays_from(j).0 == x1.rays_from(j + 1).0);
    } else {
        lemma_box_ray_strikes_col(x, g, bx, i, d);
        lemma_rays_narrow(x1, j + 1);
        let c = box_col(bx) + i;
        assert forall|r: int|
            0 <= r < 9 && !(box_row(bx) <= r < box_row(bx) + 3) implies !#[trigger] bit(
            x.rays_from(j).0.cand(r, c),
            d - 1,
        ) by {
            assert(valid_cell(r, c));
            assert(!bit(x1.cand(r, c), d - 1));
            assert(bits_within(x1.rays_from(j + 1).0.cand(r, c), x1.cand(r, c)));
        }
    }
}

/// Ray casting from box `bx` strikes a digit confined to one row of the
/// box from the rest of that row.
proof fn lemma_box_ray_strikes_row(x: Board, g: Seq<Seq<u8>>, bx: int, i: int, d: int)
    requires
        x.wf(),
        is_solution(g),
        consistent(x, g),
        0 <= bx < 9,
        0 <= i < 3,
        1 <= d <= 9,
        confined_to_row(x, bx, i, d),
    ensures
        forall|c: int|
            0 <= c < 9 && !(box_col(bx) <= c < box_col(bx) + 3) ==> !#[trigger] bit(
                x.box_rays(bx).cand(box_row(bx) + i, c),
                d - 1,
            ),
{
    let r = box_row(bx) + i;
    let r0 = box_row(bx);
    let c0 = box_col(bx);
    let cell = lemma_solution_cell_in_box(x, g, bx, d);
    assert(cell.0 == r);
    assert(bit(x.box_row_options(bx, i), d - 1)) by {
        assert(cell.1 == c0 || cell.1 == c0 + 1 || cell.1 == c0 + 2);
    }
    assert forall|i2: int| 0 <= i2 < 3 && i2 != i implies !bit(x.box_row_options(bx, i2), d - 1) by {
        let r2 = r0 + i2;
        assert(!bit(x.cand(r2, c0), d - 1));
        assert(!bit(x.cand(r2, c0 + 1), d - 1));
        assert(!bit(x.cand(r2, c0 + 2), d - 1));
    }
    assert((i + 1) % 3 != i && (i + 2) % 3 != i && 0 <= (i + 1) % 3 < 3 && 0 <= (i + 2) % 3 < 3);
    assert(bit(x.ray_row_mask(bx, i), d - 1));
    assert(x.ray_row_mask(bx, i) != 0);
    assert forall|c: int|
        0 <= c < 9 && !(box_col(bx) <= c < box_col(bx) + 3) implies !#[trigger] bit(
        x.box_rays(bx).cand(r, c),
        d - 1,
    ) by {
        assert(valid_cell(r, c));
        assert(x.box_rays(bx).cand(r, c) == x.rayed_cand(bx, r, c));
    }
}

proof fn lemma_rays_strike_row(x: Board, g: Seq<Seq<u8>>, j: int, bx: int, i: int, d: int)
    requires
        x.wf(),
        is_solution(g),
        consistent(x, g),
        0 <= j <= bx < 9,
        0 <= i < 3,
        1 <= d <= 9,
        confined_to_row(x, bx, i, d),
    ensures
        forall|c: int|
            0 <= c < 9 && !(box_col(bx) <= c < box_col(bx) + 3) ==> !#[trigger] bit(
                x.rays_from(j).0.cand(box_row(bx) + i, c),
                d - 1,
            ),
    decreases bx - j,
{
    let x1 = x.box_rays(j);
    lemma_box_rays(x, j);
    lemma_box_rays_sound(x, g, j);
    if j < bx {
        lemma_box_rays_keep_confined(x, j, bx, i, d);
        lemma_rays_strike_row(x1, g, j + 1, bx, i, d);
        assert(x.rays_from(j).0 == x1.rays_from(j + 1).0);
    } else {
        lemma_box_ray_strikes_row(x, g, bx, i, d);
        lemma_rays_narrow(x1, j + 1);
        let r = box_row(bx) + i;
        assert forall|c: int|
            0 <= c < 9 && !(box_col(bx) <= c < box_col(bx) + 3) implies !#[trigger] bit(
            x.rays_from(j).0.cand(r, c),
            d - 1,
        ) by {
            assert(valid_cell(r, c));
            assert(!bit(x1.cand(r, c), d - 1));
            assert(bits_within(x1.rays_from(j + 1).0.cand(r, c), x1.cand(r, c)));
        }
    }
}

/// Ray casting on a board that fits a solved sudoku: a digit of a box that
/// only one column of the box can take is no candidate left anywhere else in
/// that column, and one that only one row of the box can take is no
/// candidate left anywhere else in that row.
pub proof fn lemma_ray_casting_clears_confined(b: Board, g: Seq<Seq<u8>>, bx: int, i: int, d: int)
    requires
        b.wf(),
        is_solution(g),
        consistent(b, g),
        0 <= bx < 9,
        0 <= i < 3,
        1 <= d <= 9,
    ensures
        confined_to_col(b, bx, i, d) ==> forall|r: int|
            0 <= r < 9 && !(box_row(bx) <= r < box_row(bx) + 3) ==> !#[trigger] bit(
                b.ray_casting().0.cand(r, box_col(bx) + i),
                d - 1,
            ),
        confined_to_row(b, bx, i, d) ==> forall|c: int|
            0 <= c < 9 && !(box_col(bx) <= c < box_col(bx) + 3) ==> !#[trigger] bit(
                b.ray_casting().0.cand(box_row(bx) + i, c),
                d - 1,
            ),
{
    if confined_to_col(b, bx, i, d) {
        lemma_rays_strike_col(b, g, 0, bx, i, d);
    }
    if confined_to_row(b, bx, i, d) {
        lemma_rays_strike_row(b, g, 0, bx, i, d);
    }
}

/// One step of simple elimination touches only its own cell, and narrows
/// what every other cell may take.
proof fn lemma_simple_step_elsewhere(x: Board, r: int, c: int)
    requires
        x.wf(),
        valid_cell(r, c),
    ensures
        ({
            let b1 = x.simple_step(r, c).0;
            forall|r2: int, c2: int|
                #[trigger] valid_cell(r2, c2) && (r2 != r || c2 != c) ==> b1.cand(r2, c2) == x.cand(r2, c2)
                    && b1.digit(r2, c2) == x.digit(r2, c2) && bits_within(
                    b1.narrowed(r2, c2),
                    x.narrowed(r2, c2),
                )
        }),
{
    let b1 = x.simple_step(r, c).0;
    if x.digit(r, c) != 0 {
    } else {
        let p = x.narrowed(r, c);
        let bn = x.set_cand(r, c, p);
        if bit_count(p) == 1 {
            let v = lowest(p) + 1;
            lemma_place_cells(bn, r, c, v);
            assert forall|r2: int, c2: int|
                #[trigger] valid_cell(r2, c2) && (r2 != r || c2 != c) implies b1.cand(r2, c2) == x.cand(r2, c2)
                && b1.digit(r2, c2) == x.digit(r2, c2) && bits_within(b1.narrowed(r2, c2), x.narrowed(r2, c2)) by {
                assert(bn.cand(r2, c2) == x.cand(r2, c2));
                assert(bn.digit(r2, c2) == x.digit(r2, c2));
                assert(bits_within(b1.rows_options[r2], x.rows_options[r2]));
                assert(bits_within(b1.columns_options[c2], x.columns_options[c2]));
                assert(bits_within(
                    b1.inner_box_options[box_index(r2, c2)],
                    x.inner_box_options[box_index(r2, c2)],
                ));
            }
        } else {
            assert forall|r2: int, c2: int|
                #[trigger] valid_cell(r2, c2) && (r2 != r || c2 != c) implies b1.cand(r2, c2) == x.cand(r2, c2)
                && b1.digit(r2, c2) == x.digit(r2, c2) && bits_within(b1.narrowed(r2, c2), x.narrowed(r2, c2)) by {
                assert(b1.narrowed(r2, c2) == x.narrowed(r2, c2));
            }
        }
    }
}

/// A sweep of simple elimination from `(r, c)` on leaves the cells before
/// `(r, c)` alone.
proof fn lemma_sweep_before(x: Board, r: int, c: int)
    requires
        x.wf(),
        0 <= r,
        0 <= c,
    ensures
        forall|r2: int, c2: int|
            #[trigger] valid_cell(r2, c2) && !at_or_after(r2, c2, r, c) ==> x.simples_from(r, c).0.cand(r2, c2)
                == x.cand(r2, c2) && x.simples_from(r, c).0.digit(r2, c2) == x.digit(r2, c2),
    decreases 9 - r, 9 - c,
{
    if r >= 9 {
    } else if c >= 9 {
        lemma_sweep_before(x, r + 1, 0);
    } else {
        let b1 = x.simple_step(r, c).0;
        crate::rules::lemma_simple_step(x, r, c);
        lemma_simple_step_elsewhere(x, r, c);
        lemma_sweep_before(b1, r, c + 1);
        assert forall|r2: int, c2: int|
            #[trigger] valid_cell(r2, c2) && !at_or_after(r2, c2, r, c) implies x.simples_from(r, c).0.cand(r2, c2)
            == x.cand(r2, c2) && x.simples_from(r, c).0.digit(r2, c2) == x.digit(r2, c2) by {
            assert(!at_or_after(r2, c2, r, c + 1));
        }
    }
}

/// What a sweep of simple elimination from `(r, c)` on does to each empty
/// cell it visits: the cell ends with a digit its row, column and box left
/// open, or stays empty with candidates among those open digits, and not with
/// a single one.
proof fn lemma_sweep_cells(x: Board, r: int, c: int)
    requires
        x.wf(),
        0 <= r,
        0 <= c,
    ensures
        ({
            let o = x.simples_from(r, c).0;
            forall|r2: int, c2: int|
                #[trigger] valid_cell(r2, c2) && at_or_after(r2, c2, r, c) && x.digit(r2, c2) == 0 ==> {
                    &&& o.digit(r2, c2) == 0 ==> bits_within(o.cand(r2, c2), x.narrowed(r2, c2))
                        && bit_count(o.cand(r2, c2)) != 1
                    &&& o.digit(r2, c2) != 0 ==> bit(x.narrowed(r2, c2), o.digit(r2, c2) - 1)
                }
        }),
    decreases 9 - r, 9 - c,
{
    let o = x.simples_from(r, c).0;
    if r >= 9 {
    } else if c >= 9 {
        lemma_sweep_cells(x, r + 1, 0);
        assert forall|r2: int, c2: int|
            #[trigger] valid_cell(r2, c2) && at_or_after(r2, c2, r, c) && x.digit(r2, c2) == 0 implies at_or_after(
            r2,
            c2,
            r + 1,
            0,
        ) by {}
    } else {
        let b1 = x.simple_step(r, c).0;
        crate::rules::lemma_simple_step(x, r, c);
        lemma_simple_step_elsewhere(x, r, c);
        lemma_sweep_cells(b1, r, c + 1);
        lemma_sweep_before(b1, r, c + 1);
        lemma_simples_outcome(b1, r, c + 1);
        assert(o == b1.simples_from(r, c + 1).0);
        assert forall|r2: int, c2: int|
            #[trigger] valid_cell(r2, c2) && at_or_after(r2, c2, r, c) && x.digit(r2, c2) == 0 implies {
            &&& o.digit(r2, c2) == 0 ==> bits_within(o.cand(r2, c2), x.narrowed(r2, c2)) && bit_count(o.cand(r2, c2)) != 1
            &&& o.digit(r2, c2) != 0 ==> bit(x.narrowed(r2, c2), o.digit(r2, c2) - 1)
        } by {
            if r2 == r && c2 == c {
                assert(!at_or_after(r, c, r, c + 1));
                let p = x.narrowed(r, c);
                if bit_count(p) == 1 {
                    lemma_single_bit(p);
                    let v = lowest(p) + 1;
                    lemma_place_cells(x.set_cand(r, c, p), r, c, v);
                    assert(b1.digit(r, c) == v);
                } else {
                    assert(b1.digit(r, c) == 0);
                    assert(b1.cand(r, c) == p);
                }
            } else {
                assert(at_or_after(r2, c2, r, c + 1));
                assert(bits_within(b1.narrowed(r2, c2), x.narrowed(r2, c2)));
            }
        }
    }
}

/// One sweep of simple elimination: every cell empty before the sweep either
/// holds a digit that its row, column and box left open before the sweep, or
/// is still empty with only such digits as candidates and not just one of
/// them; a cell that fits a solved sudoku and had a single such digit holds
/// it after the sweep.
pub proof fn lemma_simple_elimination_fills_singles(b: Board, g: Seq<Seq<u8>>, r: int, c: int)
    requires
        b.wf(),
        valid_cell(r, c),
        b.digit(r, c) == 0,
    ensures
        ({
            let o = b.simples().0;
            &&& o.digit(r, c) == 0 ==> bits_within(o.cand(r, c), b.narrowed(r, c)) && bit_count(o.cand(r, c)) != 1
            &&& o.digit(r, c) != 0 ==> bit(b.narrowed(r, c), o.digit(r, c) - 1)
            &&& is_solution(g) && consistent(b, g) && bit_count(b.narrowed(r, c)) == 1 ==> o.digit(r, c)
                == lowest(b.narrowed(r, c)) + 1
        }),
{
    let o = b.simples().0;
    lemma_sweep_cells(b, 0, 0);
    assert(at_or_after(r, c, 0, 0));
    let p = b.narrowed(r, c);
    if is_solution(g) && consistent(b, g) && bit_count(p) == 1 {
        lemma_single_bit(p);
        lemma_simple_elimination_sound(b, g);
        if o.digit(r, c) == 0 {
            let m = o.cand(r, c);
            assert(bit(m, g[r][c] - 1));
            assert(g[r][c] - 1 == lowest(p));
            assert forall|i: int| 0 <= i < 16 implies bit(m, i) == bit(p, i) by {}
            crate::bits::lemma_bits_ext(m, p);
            assert(false);
        }
    }
}

} // verus!
