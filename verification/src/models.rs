//! The grid data model: a 9x9 matrix of optional digits, stored row-major as
//! a flat vector of 81 cells, with derived row, column and box views.

use vstd::prelude::*;

verus! {

/// A 9x9 Sudoku grid. Cell `(r, c)` is stored at index `r * 9 + c`;
/// `None` means the cell is empty, `Some(d)` holds a digit `1..=9`.
#[derive(Debug, PartialEq, Eq)]
pub struct Sudoku {
    cells: Vec<Option<u8>>,
}

impl View for Sudoku {
    type V = Seq<Option<u8>>;

    closed spec fn view(&self) -> Seq<Option<u8>> {
        self.cells@
    }
}

/// A cell is well-formed when any digit it holds lies in 1..=9.
pub open spec fn cell_wf(c: Option<u8>) -> bool {
    c matches Some(d) ==> 1 <= d <= 9
}

/// A grid is well-formed when it has exactly 81 cells, all well-formed.
pub open spec fn grid_wf(g: Seq<Option<u8>>) -> bool {
    &&& g.len() == 81
    &&& forall|i: int| 0 <= i < 81 ==> cell_wf(#[trigger] g[i])
}

/// The 9 cells of row `r`, in column order.
pub open spec fn row_seq(g: Seq<Option<u8>>, r: int) -> Seq<Option<u8>> {
    Seq::new(9, |c: int| g[r * 9 + c])
}

/// The 9 cells of column `c`, in row order.
pub open spec fn col_seq(g: Seq<Option<u8>>, c: int) -> Seq<Option<u8>> {
    Seq::new(9, |r: int| g[r * 9 + c])
}

/// The flat index of the `k`-th cell (row-major within the box) of box `b`,
/// where boxes are numbered row-major across the 3x3 arrangement of boxes.
pub open spec fn box_cell(b: int, k: int) -> int {
    ((b / 3) * 3 + k / 3) * 9 + (b % 3) * 3 + k % 3
}

/// The 9 cells of box `b`, in row-major order within the box.
pub open spec fn box_seq(g: Seq<Option<u8>>, b: int) -> Seq<Option<u8>> {
    Seq::new(9, |k: int| g[box_cell(b, k)])
}

/// The index of the box that the cell at flat index `i` lies in.
pub open spec fn box_of(i: int) -> int {
    3 * (i / 27) + (i % 9) / 3
}

/// The `k`-th cell of box `b` lies in box `b`, and distinct `k` give
/// distinct cells. Returns the flat cell index.
pub proof fn lemma_box_cell_unit(b: int, k: int) -> (a: int)
    requires
        0 <= b < 9,
        0 <= k < 9,
    ensures
        a == box_cell(b, k),
        0 <= a < 81,
        box_of(a) == b,
        a / 9 == (b / 3) * 3 + k / 3,
        a % 9 == (b % 3) * 3 + k % 3,
{
    let row = (b / 3) * 3 + k / 3;
    let col = (b % 3) * 3 + k % 3;
    let a = row * 9 + col;
    vstd::arithmetic::div_mod::lemma_fundamental_div_mod(b, 3);
    vstd::arithmetic::div_mod::lemma_fundamental_div_mod(k, 3);
    vstd::arithmetic::div_mod::lemma_mod_bound(b, 3);
    vstd::arithmetic::div_mod::lemma_mod_bound(k, 3);
    assert(0 <= row < 9);
    assert(0 <= col < 9);
    vstd::arithmetic::div_mod::lemma_fundamental_div_mod_converse(a, 9, row, col);
    vstd::arithmetic::div_mod::lemma_fundamental_div_mod_converse(
        a,
        27,
        row / 3,
        9 * (row % 3) + col,
    );
    vstd::arithmetic::div_mod::lemma_fundamental_div_mod_converse(row, 3, b / 3, k / 3);
    vstd::arithmetic::div_mod::lemma_fundamental_div_mod_converse(col, 3, b % 3, k % 3);
    assert(box_of(a) == 3 * (b / 3) + b % 3);
    a
}

/// No filled digit occurs twice among the cells of a line (a row, a column,
/// or a box flattened to 9 cells).
pub open spec fn line_valid(l: Seq<Option<u8>>) -> bool {
    forall|i: int, j: int|
        0 <= i < j < l.len() && l[i] is Some && l[j] is Some ==> l[i] != l[j]
}

/// Every row, column and box of the grid satisfies the line rule.
/// Completeness is not required: an empty grid is valid.
pub open spec fn grid_valid(g: Seq<Option<u8>>) -> bool {
    &&& forall|u: int| 0 <= u < 9 ==> line_valid(#[trigger] row_seq(g, u))
    &&& forall|u: int| 0 <= u < 9 ==> line_valid(#[trigger] col_seq(g, u))
    &&& forall|u: int| 0 <= u < 9 ==> line_valid(#[trigger] box_seq(g, u))
}

/// Every cell of the grid is filled.
pub open spec fn grid_full(g: Seq<Option<u8>>) -> bool {
    forall|i: int| 0 <= i < 81 ==> (#[trigger] g[i]) is Some
}

/// Every cell of the grid is empty.
pub open spec fn all_empty(g: Seq<Option<u8>>) -> bool {
    forall|i: int| 0 <= i < 81 ==> (#[trigger] g[i]) is None
}

/// `s` agrees with `g` on every cell that is filled in `g`.
pub open spec fn grid_extends(s: Seq<Option<u8>>, g: Seq<Option<u8>>) -> bool {
    forall|i: int| 0 <= i < 81 && (#[trigger] g[i]) is Some ==> s[i] == g[i]
}

/// `s` is a solution of the puzzle `g`: a well-formed, fully filled, valid
/// grid that keeps every digit already placed in `g`.
pub open spec fn is_completion(s: Seq<Option<u8>>, g: Seq<Option<u8>>) -> bool {
    &&& grid_wf(s)
    &&& grid_full(s)
    &&& grid_valid(s)
    &&& grid_extends(s, g)
}

/// Some completion of `g` exists.
pub open spec fn solvable(g: Seq<Option<u8>>) -> bool {
    exists|s: Seq<Option<u8>>| is_completion(s, g)
}

/// `g` has exactly one completion.
pub open spec fn unique_completion(g: Seq<Option<u8>>) -> bool {
    &&& solvable(g)
    &&& forall|a: Seq<Option<u8>>, b: Seq<Option<u8>>|
        is_completion(a, g) && is_completion(b, g) ==> a == b
}

impl Sudoku {
    /// The grid with all 81 cells empty.
    pub fn empty() -> (r: Sudoku)
        ensures
            r@.len() == 81,
            all_empty(r@),
            grid_wf(r@),
    {
        let mut cells: Vec<Option<u8>> = Vec::new();
        for i in 0..81
            invariant
                cells@.len() == i,
                forall|k: int| 0 <= k < i ==> (#[trigger] cells@[k]) is None,
        {
            cells.push(None);
        }
        Sudoku { cells }
    }

    /// A grid made of the given 81 cells, row-major.
    pub fn from_cells(cells: Vec<Option<u8>>) -> (r: Sudoku)
        requires
            cells@.len() == 81,
        ensures
            r@ == cells@,
    {
        Sudoku { cells }
    }

    /// Read the cell at row `row`, column `col`.
    pub fn get_cell(&self, row: usize, col: usize) -> (c: Option<u8>)
        requires
            self@.len() == 81,
            row < 9,
            col < 9,
        ensures
            c == self@[row * 9 + col],
    {
        self.cells[row * 9 + col]
    }

    /// Replace the cell at row `row`, column `col`.
    pub fn set_cell(&mut self, row: usize, col: usize, c: Option<u8>)
        requires
            old(self)@.len() == 81,
            row < 9,
            col < 9,
        ensures
            final(self)@ == old(self)@.update(row * 9 + col, c),
    {
        self.cells[row * 9 + col] = c;
    }

    /// An independent copy of the grid.
    pub fn clone_grid(&self) -> (r: Sudoku)
        ensures
            r@ == self@,
    {
        let mut cells: Vec<Option<u8>> = Vec::new();
        let n = self.cells.len();
        for i in 0..n
            invariant
                n == self@.len(),
                cells@ =~= self@.subrange(0, i as int),
        {
            cells.push(self.cells[i]);
        }
        proof {
            assert(cells@ =~= self@);
        }
        Sudoku { cells }
    }

    /// Cell-by-cell equality of two grids.
    pub fn cells_equal(&self, other: &Sudoku) -> (r: bool)
        requires
            self@.len() == 81,
            other@.len() == 81,
        ensures
            r == (self@ == other@),
    {
        for i in 0..81
            invariant
                self@.len() == 81,
                other@.len() == 81,
                forall|k: int| 0 <= k < i ==> self@[k] == other@[k],
        {
            let a = self.cells[i];
            let b = other.cells[i];
            let same = match (a, b) {
                (None, None) => true,
                (Some(x), Some(y)) => x == y,
                _ => false,
            };
            if !same {
                proof {
                    assert(self@[i as int] != other@[i as int]);
                }
                return false;
            }
        }
        proof {
            assert(self@ =~= other@);
        }
        true
    }
}

/// The 9 cells of row `row_index`, in column order.
pub fn get_row(sudoku: &Sudoku, row_index: usize) -> (r: Vec<Option<u8>>)
    requires
        sudoku@.len() == 81,
        row_index < 9,
    ensures
        r@ == row_seq(sudoku@, row_index as int),
{
    let mut line: Vec<Option<u8>> = Vec::new();
    for c in 0..9
        invariant
            sudoku@.len() == 81,
            row_index < 9,
            line@.len() == c,
            forall|k: int| 0 <= k < c ==> line@[k] == sudoku@[row_index * 9 + k],
    {
        line.push(sudoku.get_cell(row_index, c));
    }
    proof {
        assert(line@ =~= row_seq(sudoku@, row_index as int));
    }
    line
}

/// The 9 cells of column `col_index`, in row order.
pub fn get_column(sudoku: &Sudoku, col_index: usize) -> (r: Vec<Option<u8>>)
    requires
        sudoku@.len() == 81,
        col_index < 9,
    ensures
        r@ == col_seq(sudoku@, col_index as int),
{
    let mut line: Vec<Option<u8>> = Vec::new();
    for row in 0..9
        invariant
            sudoku@.len() == 81,
            col_index < 9,
            line@.len() == row,
            forall|k: int| 0 <= k < row ==> line@[k] == sudoku@[k * 9 + col_index],
    {
        line.push(sudoku.get_cell(row, col_index));
    }
    proof {
        assert(line@ =~= col_seq(sudoku@, col_index as int));
    }
    line
}

/// The 9 cells of box `box_index`, in row-major order within the box.
pub fn get_box(sudoku: &Sudoku, box_index: usize) -> (r: Vec<Option<u8>>)
    requires
        sudoku@.len() == 81,
        box_index < 9,
    ensures
        r@ == box_seq(sudoku@, box_index as int),
{
    let start_row: usize = (box_index / 3) * 3;
    let start_col: usize = (box_index % 3) * 3;
    let mut cells: Vec<Option<u8>> = Vec::new();
    for k in 0..9
        invariant
            sudoku@.len() == 81,
            box_index < 9,
            start_row == (box_index / 3) * 3,
            start_col == (box_index % 3) * 3,
            cells@.len() == k,
            forall|m: int| 0 <= m < k ==> cells@[m] == sudoku@[box_cell(box_index as int, m)],
    {
        let cell = sudoku.get_cell(start_row + k / 3, start_col + k % 3);
        proof {
            assert((start_row + k / 3) * 9 + start_col + k % 3
                == box_cell(box_index as int, k as int));
        }
        cells.push(cell);
    }
    proof {
        assert(cells@ =~= box_seq(sudoku@, box_index as int));
    }
    cells
}

} // verus!
