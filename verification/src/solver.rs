//! The validity checker and the backtracking solver.
//!
//! `check_valid` decides `grid_valid`; `solve` returns a completion of the
//! grid exactly when one exists, trying candidate digits for each empty cell
//! in a randomly shuffled order.

use rand::seq::SliceRandom;
use vstd::prelude::*;

use crate::models::{
    box_cell, box_of, box_seq, cell_wf, col_seq, get_box, get_column, get_row, grid_extends,
    grid_full, grid_valid, grid_wf, is_completion, lemma_box_cell_unit, line_valid, row_seq,
    solvable, Sudoku,
};
use vstd::arithmetic::div_mod::{
    lemma_fundamental_div_mod, lemma_fundamental_div_mod_converse, lemma_mod_bound,
};

verus! {

/// True iff no filled digit occurs twice among the 9 cells of a line.
pub fn check_valid_line(line: &Vec<Option<u8>>) -> (r: bool)
    requires
        line@.len() == 9,
        forall|i: int| 0 <= i < 9 ==> cell_wf(#[trigger] line@[i]),
    ensures
        r == line_valid(line@),
{
    let mut found: Vec<bool> = Vec::new();
    for d in 0..9
        invariant
            found@.len() == d,
            forall|k: int| 0 <= k < d ==> !(#[trigger] found@[k]),
    {
        found.push(false);
    }
    for idx in 0..9
        invariant
            line@.len() == 9,
            forall|i: int| 0 <= i < 9 ==> cell_wf(#[trigger] line@[i]),
            found@.len() == 9,
            forall|d: int|
                0 <= d < 9
                    ==> (#[trigger] found@[d] <==> exists|k: int|
                        0 <= k < idx && line@[k] == Some((d + 1) as u8)),
            forall|i: int, j: int|
                0 <= i < j < idx && line@[i] is Some && line@[j] is Some ==> line@[i] != line@[j],
    {
        match line[idx] {
            Some(value) => {
                proof {
                    assert(cell_wf(line@[idx as int]));
                }
                if found[(value - 1) as usize] {
                    proof {
                        let d = value - 1;
                        let k = choose|k: int| 0 <= k < idx && line@[k] == Some((d + 1) as u8);
                        assert(line@[k] == line@[idx as int]);
                        assert(!line_valid(line@));
                    }
                    return false;
                }
                found[(value - 1) as usize] = true;
            },
            None => {},
        }
    }
    true
}

/// True iff no filled digit occurs twice among the 9 cells of a box,
/// given in row-major order within the box.
pub fn check_valid_box(sbox: &Vec<Option<u8>>) -> (r: bool)
    requires
        sbox@.len() == 9,
        forall|i: int| 0 <= i < 9 ==> cell_wf(#[trigger] sbox@[i]),
    ensures
        r == line_valid(sbox@),
{
    check_valid_line(sbox)
}

/// True iff every row, column and box of the grid satisfies the line rule.
pub fn check_valid(sudoku: &Sudoku) -> (r: bool)
    requires
        grid_wf(sudoku@),
    ensures
        r == grid_valid(sudoku@),
{
    for u in 0..9
        invariant
            grid_wf(sudoku@),
            forall|w: int| 0 <= w < u ==> line_valid(#[trigger] row_seq(sudoku@, w)),
            forall|w: int| 0 <= w < u ==> line_valid(#[trigger] col_seq(sudoku@, w)),
            forall|w: int| 0 <= w < u ==> line_valid(#[trigger] box_seq(sudoku@, w)),
    {
        let row = get_row(sudoku, u);
        proof {
            assert(forall|i: int| 0 <= i < 9 ==> cell_wf(#[trigger] row@[i]));
        }
        if !check_valid_line(&row) {
            return false;
        }
        let column = get_column(sudoku, u);
        proof {
            assert(forall|i: int| 0 <= i < 9 ==> cell_wf(#[trigger] column@[i]));
        }
        if !check_valid_line(&column) {
            return false;
        }
        let sbox = get_box(sudoku, u);
        proof {
            assert(forall|i: int| 0 <= i < 9 ==> cell_wf(#[trigger] sbox@[i]));
        }
        if !check_valid_box(&sbox) {
            return false;
        }
    }
    true
}

/// Removing digits from a valid grid keeps it valid: if `s` is valid and
/// agrees with `g` on every cell filled in `g`, then `g` is valid too.
pub proof fn lemma_valid_extends(s: Seq<Option<u8>>, g: Seq<Option<u8>>)
    requires
        s.len() == 81,
        g.len() == 81,
        grid_extends(s, g),
        grid_valid(s),
    ensures
        grid_valid(g),
{
    assert forall|u: int| 0 <= u < 9 implies line_valid(#[trigger] row_seq(g, u)) by {
        assert forall|i: int, j: int|
            0 <= i < j < 9 && row_seq(g, u)[i] is Some && row_seq(g, u)[j] is Some
            implies row_seq(g, u)[i] != row_seq(g, u)[j] by {
            assert(row_seq(s, u)[i] == s[u * 9 + i]);
            assert(row_seq(s, u)[j] == s[u * 9 + j]);
            assert(s[u * 9 + i] == g[u * 9 + i]);
            assert(s[u * 9 + j] == g[u * 9 + j]);
            assert(line_valid(row_seq(s, u)));
        }
    }
    assert forall|u: int| 0 <= u < 9 implies line_valid(#[trigger] col_seq(g, u)) by {
        assert forall|i: int, j: int|
            0 <= i < j < 9 && col_seq(g, u)[i] is Some && col_seq(g, u)[j] is Some
            implies col_seq(g, u)[i] != col_seq(g, u)[j] by {
            assert(col_seq(s, u)[i] == s[i * 9 + u]);
            assert(col_seq(s, u)[j] == s[j * 9 + u]);
            assert(s[i * 9 + u] == g[i * 9 + u]);
            assert(s[j * 9 + u] == g[j * 9 + u]);
            assert(line_valid(col_seq(s, u)));
        }
    }
    assert forall|u: int| 0 <= u < 9 implies line_valid(#[trigger] box_seq(g, u)) by {
        assert forall|i: int, j: int|
            0 <= i < j < 9 && box_seq(g, u)[i] is Some && box_seq(g, u)[j] is Some
            implies box_seq(g, u)[i] != box_seq(g, u)[j] by {
            assert(0 <= box_cell(u, i) < 81);
            assert(0 <= box_cell(u, j) < 81);
            assert(box_seq(s, u)[i] == s[box_cell(u, i)]);
            assert(box_seq(s, u)[j] == s[box_cell(u, j)]);
            assert(s[box_cell(u, i)] == g[box_cell(u, i)]);
            assert(s[box_cell(u, j)] == g[box_cell(u, j)]);
            assert(line_valid(box_seq(s, u)));
        }
    }
}

/// Changing one cell of a valid grid can only break the line rule in the
/// row, column and box of that cell: every other unit keeps its cells.
proof fn lemma_update_valid_local(g: Seq<Option<u8>>, idx: int, c: Option<u8>)
    requires
        g.len() == 81,
        grid_valid(g),
        0 <= idx < 81,
    ensures
        ({
            let g2 = g.update(idx, c);
            grid_valid(g2) <==> {
                &&& line_valid(row_seq(g2, idx / 9))
                &&& line_valid(col_seq(g2, idx % 9))
                &&& line_valid(box_seq(g2, box_of(idx)))
            }
        }),
{
    let g2 = g.update(idx, c);
    let row = idx / 9;
    let col = idx % 9;
    lemma_fundamental_div_mod(idx, 9);
    lemma_mod_bound(idx, 9);
    lemma_fundamental_div_mod(idx, 27);
    lemma_mod_bound(idx, 27);
    lemma_fundamental_div_mod(col, 3);
    lemma_mod_bound(col, 3);
    assert(0 <= row < 9);
    assert(0 <= box_of(idx) < 9);
    if line_valid(row_seq(g2, row)) && line_valid(col_seq(g2, col)) && line_valid(
        box_seq(g2, box_of(idx)),
    ) {
        assert forall|u: int| 0 <= u < 9 implies line_valid(#[trigger] row_seq(g2, u)) by {
            if u != row {
                assert(row_seq(g2, u) =~= row_seq(g, u)) by {
                    assert forall|k: int| 0 <= k < 9 implies row_seq(g2, u)[k] == row_seq(g, u)[k] by {
                        lemma_fundamental_div_mod_converse(u * 9 + k, 9, u, k);
                        assert(u * 9 + k != idx);
                    }
                }
                assert(line_valid(row_seq(g, u)));
            }
        }
        assert forall|u: int| 0 <= u < 9 implies line_valid(#[trigger] col_seq(g2, u)) by {
            if u != col {
                assert(col_seq(g2, u) =~= col_seq(g, u)) by {
                    assert forall|k: int| 0 <= k < 9 implies col_seq(g2, u)[k] == col_seq(g, u)[k] by {
                        lemma_fundamental_div_mod_converse(k * 9 + u, 9, k, u);
                        assert(k * 9 + u != idx);
                    }
                }
                assert(line_valid(col_seq(g, u)));
            }
        }
        assert forall|u: int| 0 <= u < 9 implies line_valid(#[trigger] box_seq(g2, u)) by {
            if u != box_of(idx) {
                assert(box_seq(g2, u) =~= box_seq(g, u)) by {
                    assert forall|k: int| 0 <= k < 9 implies box_seq(g2, u)[k] == box_seq(g, u)[k] by {
                        let a = lemma_box_cell_unit(u, k);
                        assert(a != idx);
                    }
                }
                assert(line_valid(box_seq(g, u)));
            }
        }
    }
}

/// True iff the row, the column and the box of the given cell each satisfy
/// the line rule. On a grid that was valid before that one cell changed,
/// this decides validity of the whole grid.
fn check_cell_valid(sudoku: &Sudoku, cell_index: usize) -> (r: bool)
    requires
        grid_wf(sudoku@),
        cell_index < 81,
    ensures
        r == {
            &&& line_valid(row_seq(sudoku@, cell_index as int / 9))
            &&& line_valid(col_seq(sudoku@, cell_index as int % 9))
            &&& line_valid(box_seq(sudoku@, box_of(cell_index as int)))
        },
{
    let row = cell_index / 9;
    let column = cell_index % 9;
    let box_index = 3 * (cell_index / 27) + (cell_index % 9) / 3;
    proof {
        assert(box_index == box_of(cell_index as int));
        assert(box_index < 9);
    }
    let rowv = get_row(sudoku, row);
    proof {
        assert(forall|i: int| 0 <= i < 9 ==> cell_wf(#[trigger] rowv@[i]));
    }
    if !check_valid_line(&rowv) {
        return false;
    }
    let colv = get_column(sudoku, column);
    proof {
        assert(forall|i: int| 0 <= i < 9 ==> cell_wf(#[trigger] colv@[i]));
    }
    if !check_valid_line(&colv) {
        return false;
    }
    let boxv = get_box(sudoku, box_index);
    proof {
        assert(forall|i: int| 0 <= i < 9 ==> cell_wf(#[trigger] boxv@[i]));
    }
    check_valid_box(&boxv)
}

/// Relies on rand's `SliceRandom::shuffle`, which permutes the slice in
/// place: the elements after the call are a rearrangement of those before.
#[verifier::external_body]
fn shuffle_digits(digits: &mut Vec<u8>)
    ensures
        final(digits)@.to_multiset() == old(digits)@.to_multiset(),
        final(digits)@.len() == old(digits)@.len(),
{
    digits.shuffle(&mut rand::thread_rng());
}

/// A rearrangement of the digit list 1..=9 has length 9, holds every digit
/// from 1 to 9, and holds nothing else.
proof fn lemma_digit_perm(s: Seq<u8>)
    requires
        s.to_multiset() == seq![1u8, 2u8, 3u8, 4u8, 5u8, 6u8, 7u8, 8u8, 9u8].to_multiset(),
    ensures
        s.len() == 9,
        forall|d: u8| 1 <= d <= 9 ==> s.contains(d),
        forall|m: int| 0 <= m < 9 ==> 1 <= #[trigger] s[m] <= 9,
{
    broadcast use vstd::seq_lib::group_to_multiset_ensures;

    let base = seq![1u8, 2u8, 3u8, 4u8, 5u8, 6u8, 7u8, 8u8, 9u8];
    assert(s.len() == s.to_multiset().len());
    assert(base.len() == base.to_multiset().len());
    assert(forall|i: int| 0 <= i < 9 ==> 1 <= #[trigger] base[i] <= 9);
    assert forall|d: u8| 1 <= d <= 9 implies s.contains(d) by {
        assert(base[d as int - 1] == d);
        assert(base.contains(d));
        assert(s.to_multiset().count(d) > 0);
    }
    assert forall|m: int| 0 <= m < 9 implies 1 <= #[trigger] s[m] <= 9 by {
        assert(s.contains(s[m]));
        assert(base.to_multiset().count(s[m]) > 0);
        assert(base.contains(s[m]));
        let i = choose|i: int| 0 <= i < 9 && base[i] == s[m];
        assert(1 <= base[i] <= 9);
    }
}

/// Fill the empty cells from `cell_index` on (all cells before it are
/// filled), keeping the grid valid. Returns a completion exactly when one
/// exists; candidate digits are tried in a randomly shuffled order, so which
/// completion comes back is not determined.
fn solve_partial(previous: Sudoku, cell_index: usize) -> (r: Option<Sudoku>)
    requires
        grid_wf(previous@),
        grid_valid(previous@),
        cell_index <= 81,
        forall|i: int| 0 <= i < cell_index ==> (#[trigger] previous@[i]) is Some,
    ensures
        r matches Some(s) ==> is_completion(s@, previous@),
        r is None ==> !solvable(previous@),
    decreases 81 - cell_index,
{
    let ghost g = previous@;
    if cell_index == 81 {
        proof {
            assert(grid_full(g));
            assert(grid_extends(g, g));
        }
        return Some(previous);
    }
    let row = cell_index / 9;
    let column = cell_index % 9;
    proof {
        assert(row * 9 + column == cell_index);
    }
    if previous.get_cell(row, column).is_some() {
        return solve_partial(previous, cell_index + 1);
    }
    let mut sudoku = previous.clone_grid();
    let mut digits: Vec<u8> = vec![1u8, 2u8, 3u8, 4u8, 5u8, 6u8, 7u8, 8u8, 9u8];
    shuffle_digits(&mut digits);
    proof {
        lemma_digit_perm(digits@);
        // every completion fills this cell with one of the nine candidates
        assert forall|s2: Seq<Option<u8>>| #[trigger] is_completion(s2, g) implies exists|m: int|
            0 <= m < 9 && s2[cell_index as int] == Some(digits@[m]) by {
            assert(s2[cell_index as int] is Some);
            assert(cell_wf(s2[cell_index as int]));
            let d = s2[cell_index as int].unwrap();
            assert(digits@.contains(d));
            let m = choose|m: int| 0 <= m < digits@.len() && digits@[m] == d;
            assert(s2[cell_index as int] == Some(digits@[m]));
        }
    }
    for k in 0..9usize
        invariant
            grid_wf(sudoku@),
            sudoku@.len() == 81,
            digits@.len() == 9,
            forall|m: int| 0 <= m < 9 ==> 1 <= #[trigger] digits@[m] <= 9,
            g == previous@,
            g.len() == 81,
            grid_wf(g),
            grid_valid(g),
            cell_index < 81,
            row == cell_index / 9,
            column == cell_index % 9,
            row * 9 + column == cell_index,
            g[cell_index as int] is None,
            forall|i: int| 0 <= i < cell_index ==> (#[trigger] g[i]) is Some,
            forall|i: int| 0 <= i < 81 && i != cell_index ==> sudoku@[i] == g[i],
            forall|s2: Seq<Option<u8>>| #[trigger] is_completion(s2, g) ==> exists|m: int|
                k <= m < 9 && s2[cell_index as int] == Some(digits@[m]),
    {
        let n = digits[k];
        sudoku.set_cell(row, column, Some(n));
        let placed_ok = check_cell_valid(&sudoku, cell_index);
        proof {
            assert(grid_wf(sudoku@));
            assert(sudoku@ =~= g.update(cell_index as int, Some(n)));
            lemma_update_valid_local(g, cell_index as int, Some(n));
            assert(placed_ok == grid_valid(sudoku@));
        }
        if placed_ok {
            proof {
                assert forall|i: int| 0 <= i < cell_index + 1 implies (#[trigger] sudoku@[i]) is Some by {
                    if i < cell_index {
                        assert(sudoku@[i] == g[i]);
                        assert(g[i] is Some);
                    } else {
                        assert(sudoku@[i] == Some(n));
                    }
                }
            }
            let attempt = solve_partial(sudoku.clone_grid(), cell_index + 1);
            match attempt {
                Some(solution) => {
                    proof {
                        assert forall|i: int|
                            0 <= i < 81 && (#[trigger] g[i]) is Some implies solution@[i] == g[i] by {
                            assert(sudoku@[i] == g[i]);
                            assert(solution@[i] == sudoku@[i]);
                        }
                        assert(is_completion(solution@, g));
                    }
                    return Some(solution);
                },
                None => {
                    proof {
                        assert forall|s2: Seq<Option<u8>>| #[trigger] is_completion(s2, g)
                            implies exists|m: int|
                            k + 1 <= m < 9 && s2[cell_index as int] == Some(digits@[m]) by {
                            let m0 = choose|m: int|
                                k <= m < 9 && s2[cell_index as int] == Some(digits@[m]);
                            if s2[cell_index as int] == Some(digits@[k as int]) {
                                assert forall|i: int|
                                    0 <= i < 81 && (#[trigger] sudoku@[i]) is Some
                                    implies s2[i] == sudoku@[i] by {
                                    if i != cell_index {
                                        assert(sudoku@[i] == g[i]);
                                    }
                                }
                                assert(is_completion(s2, sudoku@));
                                assert(solvable(sudoku@));
                                assert(false);
                            }
                            assert(m0 != k);
                        }
                    }
                },
            }
        } else {
            proof {
                assert forall|s2: Seq<Option<u8>>| #[trigger] is_completion(s2, g)
                    implies exists|m: int|
                    k + 1 <= m < 9 && s2[cell_index as int] == Some(digits@[m]) by {
                    let m0 = choose|m: int|
                        k <= m < 9 && s2[cell_index as int] == Some(digits@[m]);
                    if s2[cell_index as int] == Some(digits@[k as int]) {
                        assert forall|i: int|
                            0 <= i < 81 && (#[trigger] sudoku@[i]) is Some
                            implies s2[i] == sudoku@[i] by {
                            if i != cell_index {
                                assert(sudoku@[i] == g[i]);
                            }
                        }
                        assert(grid_extends(s2, sudoku@));
                        lemma_valid_extends(s2, sudoku@);
                        assert(false);
                    }
                    assert(m0 != k);
                }
            }
        }
    }
    proof {
        if solvable(g) {
            let s2 = choose|s2: Seq<Option<u8>>| is_completion(s2, g);
            assert(is_completion(s2, g));
        }
    }
    None
}

/// Solve the grid: returns `Some` of a completed grid exactly when a digit
/// assignment exists that fills every empty cell while keeping the grid
/// valid, and `None` otherwise. An input that already breaks the line rule
/// has no completion, so it yields `None`.
pub fn solve(sudoku: Sudoku) -> (r: Option<Sudoku>)
    requires
        grid_wf(sudoku@),
    ensures
        r matches Some(s) ==> is_completion(s@, sudoku@),
        (r is Some) == solvable(sudoku@),
{
    let ghost g = sudoku@;
    if !check_valid(&sudoku) {
        proof {
            lemma_invalid_unsolvable(g);
        }
        return None;
    }
    let result = solve_partial(sudoku, 0);
    proof {
        if result is Some {
            assert(is_completion(result.unwrap()@, g));
        }
    }
    result
}

/// A grid that breaks the line rule has no completion: every completion
/// keeps the conflicting digits in place.
pub proof fn lemma_invalid_unsolvable(g: Seq<Option<u8>>)
    requires
        g.len() == 81,
        !grid_valid(g),
    ensures
        !solvable(g),
{
    if solvable(g) {
        let s = choose|s: Seq<Option<u8>>| is_completion(s, g);
        lemma_valid_extends(s, g);
    }
}

} // verus!
