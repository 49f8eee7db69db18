//! Text pictures of a puzzle: its digits, and the candidates of its cells.
use vstd::prelude::*;
use crate::bits::{bit, bit_count, group_bits, candidate_count};
use crate::solver::Sudoku;

verus! {

broadcast use group_bits;

/// The separator line of the digit picture: `+-------+-------+-------+`.
pub open spec fn grid_sep() -> Seq<u8> {
    Seq::new(25, |i: int| if i % 8 == 0 { 43u8 } else { 45u8 })
}

/// The separator line of the candidate picture: three runs of 31 dashes between `+`.
pub open spec fn possibles_sep() -> Seq<u8> {
    Seq::new(97, |i: int| if i % 32 == 0 { 43u8 } else { 45u8 })
}

/// The decimal digits of `v`.
pub open spec fn decimal(v: u8) -> Seq<u8> {
    if v < 10 {
        seq![(48 + v) as u8]
    } else if v < 100 {
        seq![(48 + v / 10) as u8, (48 + v % 10) as u8]
    } else {
        seq![(48 + v / 100) as u8, (48 + (v / 10) % 10) as u8, (48 + v % 10) as u8]
    }
}

/// A cell of the digit picture: `. ` for an empty cell, else its digit and a space.
pub open spec fn digit_cell_text(v: u8) -> Seq<u8> {
    if v == 0 {
        seq![46u8, 32u8]
    } else {
        decimal(v).push(32u8)
    }
}

/// The start of a box within a line: `| ` before columns 0, 3 and 6.
pub open spec fn box_start(c: int) -> Seq<u8> {
    if c % 3 == 0 {
        seq![124u8, 32u8]
    } else {
        Seq::empty()
    }
}

/// A line of the digit picture from column `c` on.
pub open spec fn digit_line_from(cells: Seq<u8>, c: int) -> Seq<u8>
    decreases 9 - c,
{
    if c >= 9 {
        seq![124u8, 10u8]
    } else {
        box_start(c) + digit_cell_text(cells[c]) + digit_line_from(cells, c + 1)
    }
}

/// The separator before row `r` (a line of its own before rows 0, 3 and 6).
pub open spec fn sep_before(sep: Seq<u8>, r: int) -> Seq<u8> {
    if r % 3 == 0 {
        sep.push(10u8)
    } else {
        Seq::empty()
    }
}

/// The digit picture from row `r` on.
pub open spec fn digit_picture_from(raster: Seq<Seq<u8>>, r: int) -> Seq<u8>
    decreases 9 - r,
{
    if r >= 9 {
        grid_sep()
    } else {
        sep_before(grid_sep(), r) + digit_line_from(raster[r], 0) + digit_picture_from(raster, r + 1)
    }
}

/// Width of the binary picture of `m`: nine digits, more when `m` needs them.
pub open spec fn binary_width(m: u16) -> int {
    if m < 512 {
        9
    } else if m < 1024 {
        10
    } else if m < 2048 {
        11
    } else if m < 4096 {
        12
    } else if m < 8192 {
        13
    } else if m < 16384 {
        14
    } else if m < 32768 {
        15
    } else {
        16
    }
}

/// The binary digits of `m`, highest first, padded with zeros to nine.
pub open spec fn binary(m: u16) -> Seq<u8> {
    Seq::new(
        binary_width(m) as nat,
        |j: int| if bit(m, binary_width(m) - 1 - j) { 49u8 } else { 48u8 },
    )
}

/// A cell of the candidate picture: dashes for a single candidate, else the
/// candidates in binary; then a space.
pub open spec fn possibles_cell_text(m: u16) -> Seq<u8> {
    if bit_count(m) == 1 {
        Seq::new(9, |j: int| 45u8).push(32u8)
    } else {
        binary(m).push(32u8)
    }
}

/// A line of the candidate picture from column `c` on.
pub open spec fn possibles_line_from(cands: Seq<u16>, c: int) -> Seq<u8>
    decreases 9 - c,
{
    if c >= 9 {
        seq![124u8, 10u8]
    } else {
        box_start(c) + possibles_cell_text(cands[c]) + possibles_line_from(cands, c + 1)
    }
}

/// The candidate picture from row `r` on.
pub open spec fn possibles_picture_from(possibles: Seq<Seq<u16>>, r: int) -> Seq<u8>
    decreases 9 - r,
{
    if r >= 9 {
        possibles_sep()
    } else {
        sep_before(possibles_sep(), r) + possibles_line_from(possibles[r], 0)
            + possibles_picture_from(possibles, r + 1)
    }
}

/// The characters of ASCII bytes.
pub open spec fn ascii_chars(bytes: Seq<u8>) -> Seq<char> {
    bytes.map_values(|b: u8| b as char)
}

/// `String::from_utf8`: ASCII bytes are valid UTF-8, and the string's
/// characters are the bytes themselves.
#[verifier::external_body]
fn ascii_string(bytes: Vec<u8>) -> (text: String)
    requires
        forall|i: int| 0 <= i < bytes.len() ==> bytes[i] < 128,
    ensures
        text@ == ascii_chars(bytes@),
{
    match String::from_utf8(bytes) {
        Ok(text) => text,
        Err(_) => String::new(),
    }
}

/// Appends `text` to `out`.
fn push_all(out: &mut Vec<u8>, text: &Vec<u8>)
    ensures
        final(out)@ == old(out)@ + text@,
{
    let mut i: usize = 0;
    while i < text.len()
        invariant
            i <= text.len(),
            out@ == old(out)@ + text@.subrange(0, i as int),
        decreases text.len() - i,
    {
        out.push(text[i]);
        i = i + 1;
        proof {
            assert(out@ =~= old(out)@ + text@.subrange(0, i as int));
        }
    }
    proof {
        assert(text@.subrange(0, text.len() as int) =~= text@);
    }
}

/// The bytes of a separator line with `+` every `period` bytes.
fn separator(len: usize, period: usize) -> (sep: Vec<u8>)
    requires
        period > 0,
    ensures
        sep@ == Seq::new(len as nat, |i: int| if i % (period as int) == 0 { 43u8 } else { 45u8 }),
{
    let mut sep: Vec<u8> = Vec::new();
    let mut i: usize = 0;
    while i < len
        invariant
            period > 0,
            i <= len,
            sep@ == Seq::new(i as nat, |j: int| if j % (period as int) == 0 { 43u8 } else { 45u8 }),
        decreases len - i,
    {
        if i % period == 0 {
            sep.push(43u8);
        } else {
            sep.push(45u8);
        }
        i = i + 1;
        proof {
            assert(sep@ =~= Seq::new(i as nat, |j: int| if j % (period as int) == 0 { 43u8 } else { 45u8 }));
        }
    }
    sep
}

/// Appends the decimal digits of `v`.
fn push_decimal(out: &mut Vec<u8>, v: u8)
    ensures
        final(out)@ == old(out)@ + decimal(v),
{
    if v < 10 {
        out.push(48 + v);
    } else if v < 100 {
        out.push(48 + v / 10);
        out.push(48 + v % 10);
    } else {
        out.push(48 + v / 100);
        out.push(48 + (v / 10) % 10);
        out.push(48 + v % 10);
    }
    proof {
        assert(final(out)@ =~= old(out)@ + decimal(v));
    }
}

/// Appends the binary digits of `m`, padded to nine.
fn push_binary(out: &mut Vec<u8>, m: u16)
    ensures
        final(out)@ == old(out)@ + binary(m),
{
    let width: u16 = if m < 512 {
        9
    } else if m < 1024 {
        10
    } else if m < 2048 {
        11
    } else if m < 4096 {
        12
    } else if m < 8192 {
        13
    } else if m < 16384 {
        14
    } else if m < 32768 {
        15
    } else {
        16
    };
    let mut j: u16 = 0;
    while j < width
        invariant
            width == binary_width(m),
            j <= width,
            out@ == old(out)@ + binary(m).subrange(0, j as int),
        decreases width - j,
    {
        let shift = width - 1 - j;
        if (m >> shift) & 1 == 1 {
            out.push(49u8);
        } else {
            out.push(48u8);
        }
        j = j + 1;
        proof {
            assert(out@ =~= old(out)@ + binary(m).subrange(0, j as int));
        }
    }
    proof {
        assert(binary(m).subrange(0, width as int) =~= binary(m));
    }
}

/// Appends `| ` before columns 0, 3 and 6.
fn push_box_start(out: &mut Vec<u8>, c: usize)
    ensures
        final(out)@ == old(out)@ + box_start(c as int),
{
    if c % 3 == 0 {
        out.push(124u8);
        out.push(32u8);
    }
    proof {
        assert(final(out)@ =~= old(out)@ + box_start(c as int));
    }
}

/// Appends the end of a line: `|` and a line break.
fn push_line_end(out: &mut Vec<u8>)
    ensures
        final(out)@ == old(out)@ + seq![124u8, 10u8],
{
    out.push(124u8);
    out.push(10u8);
    proof {
        assert(final(out)@ =~= old(out)@ + seq![124u8, 10u8]);
    }
}

/// Appends the separator line before row `r` when one is due.
fn push_sep_before(out: &mut Vec<u8>, sep: &Vec<u8>, r: usize)
    ensures
        final(out)@ == old(out)@ + sep_before(sep@, r as int),
{
    if r % 3 == 0 {
        push_all(out, sep);
        out.push(10u8);
    }
    proof {
        assert(final(out)@ =~= old(out)@ + sep_before(sep@, r as int));
    }
}

proof fn lemma_concat_assoc(a: Seq<u8>, b: Seq<u8>, c: Seq<u8>)
    ensures
        a + b + c == a + (b + c),
{
    assert(a + b + c =~= a + (b + c));
}

impl Sudoku {
    /// The digit picture of the grid as bytes.
    pub fn picture_bytes(&self) -> (out: Vec<u8>)
        ensures
            out@ == digit_picture_from(self@.raster, 0),
    {
        let sep = separator(25, 8);
        proof {
            assert(sep@ =~= grid_sep());
        }
        let mut out: Vec<u8> = Vec::new();
        let mut row: usize = 0;
        while row < 9
            invariant
                row <= 9,
                sep@ == grid_sep(),
                out@ + digit_picture_from(self@.raster, row as int) == digit_picture_from(
                    self@.raster,
                    0,
                ),
            decreases 9 - row,
        {
            let ghost before = out@;
            let ghost cells = self@.raster[row as int];
            push_sep_before(&mut out, &sep, row);
            let mut col: usize = 0;
            while col < 9
                invariant
                    row < 9,
                    col <= 9,
                    cells == self@.raster[row as int],
                    out@ + digit_line_from(cells, col as int) == before + sep_before(
                        grid_sep(),
                        row as int,
                    ) + digit_line_from(cells, 0),
                decreases 9 - col,
            {
                let ghost o0 = out@;
                push_box_start(&mut out, col);
                let cell = self.raster[row][col];
                if cell == 0 {
                    out.push(46u8);
                    out.push(32u8);
                } else {
                    push_decimal(&mut out, cell);
                    out.push(32u8);
                }
                proof {
                    assert(out@ =~= o0 + box_start(col as int) + digit_cell_text(cells[col as int]));
                    lemma_concat_assoc(
                        o0 + box_start(col as int),
                        digit_cell_text(cells[col as int]),
                        digit_line_from(cells, col + 1),
                    );
                    lemma_concat_assoc(
                        o0,
                        box_start(col as int),
                        digit_cell_text(cells[col as int]) + digit_line_from(cells, col + 1),
                    );
                    lemma_concat_assoc(
                        box_start(col as int),
                        digit_cell_text(cells[col as int]),
                        digit_line_from(cells, col + 1),
                    );
                }
                col = col + 1;
            }
            push_line_end(&mut out);
            proof {
                lemma_concat_assoc(
                    before,
                    sep_before(grid_sep(), row as int) + digit_line_from(cells, 0),
                    digit_picture_from(self@.raster, row + 1),
                );
                lemma_concat_assoc(before, sep_before(grid_sep(), row as int), digit_line_from(cells, 0));
            }
            row = row + 1;
        }
        push_all(&mut out, &sep);
        out
    }

    /// The digit picture of the grid: three bands of three rows between
    /// separator lines, `.` for an empty cell.
    pub fn to_text(&self) -> (text: String)
        ensures
            text@ == ascii_chars(digit_picture_from(self@.raster, 0)),
    {
        let bytes = self.picture_bytes();
        proof {
            lemma_digit_picture_ascii(self@.raster, 0);
        }
        ascii_string(bytes)
    }

    /// A view of the grid that shows the candidates of each cell.
    pub fn possibles_view(&self) -> (view: PossiblesView<'_>)
        ensures
            view.0 == self,
    {
        PossiblesView(self)
    }
}

/// All bytes of `s` are ASCII.
pub open spec fn is_ascii_bytes(s: Seq<u8>) -> bool {
    forall|i: int| 0 <= i < s.len() ==> #[trigger] s[i] < 128
}

proof fn lemma_ascii_concat(a: Seq<u8>, b: Seq<u8>)
    requires
        is_ascii_bytes(a),
        is_ascii_bytes(b),
    ensures
        is_ascii_bytes(a + b),
{
    assert forall|i: int| 0 <= i < (a + b).len() implies #[trigger] (a + b)[i] < 128 by {
        if i >= a.len() {
            assert((a + b)[i] == b[i - a.len()]);
        }
    }
}

proof fn lemma_digit_line_ascii(cells: Seq<u8>, c: int)
    ensures
        is_ascii_bytes(digit_line_from(cells, c)),
    decreases 9 - c,
{
    if c < 9 {
        lemma_digit_line_ascii(cells, c + 1);
        let v = cells[c];
        assert(is_ascii_bytes(decimal(v)));
        assert(is_ascii_bytes(digit_cell_text(v)));
        assert(is_ascii_bytes(box_start(c)));
        lemma_ascii_concat(box_start(c), digit_cell_text(v));
        lemma_ascii_concat(box_start(c) + digit_cell_text(v), digit_line_from(cells, c + 1));
    } else {
        assert(is_ascii_bytes(seq![124u8, 10u8]));
    }
}

proof fn lemma_digit_picture_ascii(raster: Seq<Seq<u8>>, r: int)
    ensures
        is_ascii_bytes(digit_picture_from(raster, r)),
    decreases 9 - r,
{
    assert(is_ascii_bytes(grid_sep()));
    assert(is_ascii_bytes(grid_sep().push(10u8)));
    if r < 9 {
        lemma_digit_picture_ascii(raster, r + 1);
        lemma_digit_line_ascii(raster[r], 0);
        assert(is_ascii_bytes(sep_before(grid_sep(), r)));
        lemma_ascii_concat(sep_before(grid_sep(), r), digit_line_from(raster[r], 0));
        lemma_ascii_concat(
            sep_before(grid_sep(), r) + digit_line_from(raster[r], 0),
            digit_picture_from(raster, r + 1),
        );
    }
}

/// The grid seen through the candidates of its cells.
pub struct PossiblesView<'a>(pub &'a Sudoku);

impl<'a> PossiblesView<'a> {
    /// The candidate picture as bytes.
    pub fn picture_bytes(&self) -> (out: Vec<u8>)
        ensures
            out@ == possibles_picture_from(self.0@.possibles, 0),
    {
        let sep = separator(97, 32);
        proof {
            assert(sep@ =~= possibles_sep());
        }
        let ghost possibles = self.0@.possibles;
        let mut out: Vec<u8> = Vec::new();
        let mut row: usize = 0;
        while row < 9
            invariant
                row <= 9,
                sep@ == possibles_sep(),
                possibles == self.0@.possibles,
                out@ + possibles_picture_from(possibles, row as int) == possibles_picture_from(
                    possibles,
                    0,
                ),
            decreases 9 - row,
        {
            let ghost before = out@;
            let ghost cells = possibles[row as int];
            push_sep_before(&mut out, &sep, row);
            let mut col: usize = 0;
            while col < 9
                invariant
                    row < 9,
                    col <= 9,
                    possibles == self.0@.possibles,
                    cells == possibles[row as int],
                    out@ + possibles_line_from(cells, col as int) == before + sep_before(
                        possibles_sep(),
                        row as int,
                    ) + possibles_line_from(cells, 0),
                decreases 9 - col,
            {
                let ghost o0 = out@;
                push_box_start(&mut out, col);
                let options = self.0.possibles_raster[row][col].options;
                let ghost o1 = out@;
                if candidate_count(options) == 1 {
                    let mut k: usize = 0;
                    while k < 9
                        invariant
                            k <= 9,
                            out@ == o1 + Seq::new(k as nat, |j: int| 45u8),
                        decreases 9 - k,
                    {
                        out.push(45u8);
                        k = k + 1;
                        proof {
                            assert(out@ =~= o1 + Seq::new(k as nat, |j: int| 45u8));
                        }
                    }
                } else {
                    push_binary(&mut out, options);
                }
                out.push(32u8);
                proof {
                    assert(out@ =~= o0 + box_start(col as int) + possibles_cell_text(cells[col as int]));
                    lemma_concat_assoc(
                        o0 + box_start(col as int),
                        possibles_cell_text(cells[col as int]),
                        possibles_line_from(cells, col + 1),
                    );
                    lemma_concat_assoc(
                        o0,
                        box_start(col as int),
                        possibles_cell_text(cells[col as int]) + possibles_line_from(cells, col + 1),
                    );
                    lemma_concat_assoc(
                        box_start(col as int),
                        possibles_cell_text(cells[col as int]),
                        possibles_line_from(cells, col + 1),
                    );
                }
                col = col + 1;
            }
            push_line_end(&mut out);
            proof {
                lemma_concat_assoc(
                    before,
                    sep_before(possibles_sep(), row as int) + possibles_line_from(cells, 0),
                    possibles_picture_from(possibles, row + 1),
                );
                lemma_concat_assoc(
                    before,
                    sep_before(possibles_sep(), row as int),
                    possibles_line_from(cells, 0),
                );
            }
            row = row + 1;
        }
        push_all(&mut out, &sep);
        out
    }

    /// The candidate picture: each cell's candidates as nine binary digits
    /// (digit 9 first), dashes for a cell with a single candidate.
    pub fn to_text(&self) -> (text: String)
        ensures
            text@ == ascii_chars(possibles_picture_from(self.0@.possibles, 0)),
    {
        let bytes = self.picture_bytes();
        proof {
            lemma_possibles_picture_ascii(self.0@.possibles, 0);
        }
        ascii_string(bytes)
    }
}

proof fn lemma_possibles_line_ascii(cands: Seq<u16>, c: int)
    ensures
        is_ascii_bytes(possibles_line_from(cands, c)),
    decreases 9 - c,
{
    if c < 9 {
        lemma_possibles_line_ascii(cands, c + 1);
        let m = cands[c];
        assert(is_ascii_bytes(binary(m)));
        assert(is_ascii_bytes(Seq::new(9, |j: int| 45u8)));
        assert(is_ascii_bytes(possibles_cell_text(m)));
        assert(is_ascii_bytes(box_start(c)));
        lemma_ascii_concat(box_start(c), possibles_cell_text(m));
        lemma_ascii_concat(box_start(c) + possibles_cell_text(m), possibles_line_from(cands, c + 1));
    } else {
        assert(is_ascii_bytes(seq![124u8, 10u8]));
    }
}

proof fn lemma_possibles_picture_ascii(possibles: Seq<Seq<u16>>, r: int)
    ensures
        is_ascii_bytes(possibles_picture_from(possibles, r)),
    decreases 9 - r,
{
    assert(is_ascii_bytes(possibles_sep()));
    assert(is_ascii_bytes(possibles_sep().push(10u8)));
    if r < 9 {
        lemma_possibles_picture_ascii(possibles, r + 1);
        lemma_possibles_line_ascii(possibles[r], 0);
        assert(is_ascii_bytes(sep_before(possibles_sep(), r)));
        lemma_ascii_concat(sep_before(possibles_sep(), r), possibles_line_from(possibles[r], 0));
        lemma_ascii_concat(
            sep_before(possibles_sep(), r) + possibles_line_from(possibles[r], 0),
            possibles_picture_from(possibles, r + 1),
        );
    }
}

} // verus!
