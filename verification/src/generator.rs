//! The puzzle generator and its uniqueness heuristic.
//!
//! `generate` builds a full solution by solving the empty grid, then removes
//! randomly chosen cells while `unique` still reports the puzzle as uniquely
//! solvable. `unique` samples the randomized solver a fixed number of times
//! and compares the outcomes: a puzzle with exactly one completion always
//! passes, a puzzle with several completions is likely (not certain) to fail,
//! and the all-empty grid fails by convention.

use rand::Rng;
use vstd::prelude::*;

use crate::models::{
    all_empty, box_of, box_seq, cell_wf, col_seq, grid_extends, grid_full, grid_valid, grid_wf,
    is_completion, lemma_box_cell_unit, line_valid, row_seq, solvable, unique_completion, Sudoku,
};
use crate::solver::solve;
use vstd::arithmetic::div_mod::{
    lemma_fundamental_div_mod, lemma_fundamental_div_mod_converse, lemma_mod_bound,
};
use vstd::pervasive::unreached;

verus! {

/// Relies on rand's `Rng::gen_range`, which returns a value within the given
/// non-empty range.
#[verifier::external_body]
fn random_cell_index() -> (r: usize)
    ensures
        r < 81,
{
    rand::thread_rng().gen_range(0..81)
}

/// Two cell indices share a row, a column, or a box.
spec fn same_unit(i1: int, i2: int) -> bool {
    i1 / 9 == i2 / 9 || i1 % 9 == i2 % 9 || box_of(i1) == box_of(i2)
}

/// No two distinct filled cells of a shared unit hold the same digit:
/// a cell-level statement of grid validity.
spec fn units_distinct(g: Seq<Option<u8>>) -> bool {
    forall|i1: int, i2: int|
        0 <= i1 < 81 && 0 <= i2 < 81 && i1 != i2 && same_unit(i1, i2) && (#[trigger] g[i1]) is Some
            && (#[trigger] g[i2]) is Some ==> g[i1] != g[i2]
}

/// Cell-level distinctness implies the line rule for every row, column and box.
proof fn lemma_units_distinct_valid(g: Seq<Option<u8>>)
    requires
        g.len() == 81,
        units_distinct(g),
    ensures
        grid_valid(g),
{
    assert forall|u: int| 0 <= u < 9 implies line_valid(#[trigger] row_seq(g, u)) by {
        assert forall|i: int, j: int|
            0 <= i < j < 9 && row_seq(g, u)[i] is Some && row_seq(g, u)[j] is Some
            implies row_seq(g, u)[i] != row_seq(g, u)[j] by {
            let a = u * 9 + i;
            let b = u * 9 + j;
            lemma_fundamental_div_mod_converse(a, 9, u, i);
            lemma_fundamental_div_mod_converse(b, 9, u, j);
            assert(same_unit(a, b));
            assert(row_seq(g, u)[i] == g[a]);
            assert(row_seq(g, u)[j] == g[b]);
        }
    }
    assert forall|u: int| 0 <= u < 9 implies line_valid(#[trigger] col_seq(g, u)) by {
        assert forall|i: int, j: int|
            0 <= i < j < 9 && col_seq(g, u)[i] is Some && col_seq(g, u)[j] is Some
            implies col_seq(g, u)[i] != col_seq(g, u)[j] by {
            let a = i * 9 + u;
            let b = j * 9 + u;
            lemma_fundamental_div_mod_converse(a, 9, i, u);
            lemma_fundamental_div_mod_converse(b, 9, j, u);
            assert(same_unit(a, b));
            assert(col_seq(g, u)[i] == g[a]);
            assert(col_seq(g, u)[j] == g[b]);
        }
    }
    assert forall|u: int| 0 <= u < 9 implies line_valid(#[trigger] box_seq(g, u)) by {
        assert forall|i: int, j: int|
            0 <= i < j < 9 && box_seq(g, u)[i] is Some && box_seq(g, u)[j] is Some
            implies box_seq(g, u)[i] != box_seq(g, u)[j] by {
            let a = lemma_box_cell_unit(u, i);
            let b = lemma_box_cell_unit(u, j);
            assert(a != b);
            assert(same_unit(a, b));
            assert(box_seq(g, u)[i] == g[a]);
            assert(box_seq(g, u)[j] == g[b]);
        }
    }
}

/// The digit the canonical solution places at flat cell index `i`.
spec fn canonical_cell(i: int) -> Option<u8> {
    Some((((3 * (i / 9) + (i / 9) / 3 + i % 9) % 9) + 1) as u8)
}

/// A fixed full solution: row `r` holds the digits 1..=9 cyclically shifted
/// so that rows of the same band shift by three and bands shift by one.
spec fn canonical_grid() -> Seq<Option<u8>> {
    Seq::new(81, |i: int| canonical_cell(i))
}

/// Decompose a flat cell index into the coordinates the canonical formula
/// reads: row, column, their base-3 digits, and the shifted digit argument
/// `t` whose residue modulo 9 determines the cell's digit.
proof fn lemma_canonical_coords(i: int) -> (q: (int, int, int, int, int, int))
    requires
        0 <= i < 81,
    ensures
        ({
            let (r, c, a, b, e, f) = q;
            &&& r == i / 9
            &&& c == i % 9
            &&& a == r / 3
            &&& b == r % 3
            &&& e == c / 3
            &&& f == c % 3
            &&& 0 <= r < 9 && 0 <= c < 9
            &&& 0 <= a < 3 && 0 <= b < 3 && 0 <= e < 3 && 0 <= f < 3
            &&& i == 27 * a + 9 * b + 3 * e + f
            &&& i / 27 == a
            &&& box_of(i) == 3 * a + e
            &&& 3 * r + r / 3 + c == 9 * a + (a + 3 * b + 3 * e + f)
            &&& 0 <= a + 3 * b + 3 * e + f < 17
            &&& canonical_cell(i) == Some((((a + 3 * b + 3 * e + f) % 9) + 1) as u8)
        }),
{
    let r = i / 9;
    let c = i % 9;
    lemma_fundamental_div_mod(i, 9);
    lemma_mod_bound(i, 9);
    let a = r / 3;
    let b = r % 3;
    lemma_fundamental_div_mod(r, 3);
    lemma_mod_bound(r, 3);
    let e = c / 3;
    let f = c % 3;
    lemma_fundamental_div_mod(c, 3);
    lemma_mod_bound(c, 3);
    assert(i == 27 * a + 9 * b + 3 * e + f);
    lemma_fundamental_div_mod_converse(i, 27, a, 9 * b + 3 * e + f);
    let t = a + 3 * b + 3 * e + f;
    assert(3 * r + r / 3 + c == 9 * a + t);
    vstd::arithmetic::div_mod::lemma_mod_multiples_vanish(a, t, 9);
    assert((9 * a + t) % 9 == t % 9);
    (r, c, a, b, e, f)
}

/// Two distinct cells of a shared unit get distinct digits from the
/// canonical formula.
#[verifier::rlimit(50)]
proof fn lemma_canonical_distinct(i1: int, i2: int)
    requires
        0 <= i1 < 81,
        0 <= i2 < 81,
        i1 != i2,
        same_unit(i1, i2),
    ensures
        canonical_cell(i1) != canonical_cell(i2),
{
    let (r1, c1, a1, b1, e1, f1) = lemma_canonical_coords(i1);
    let (r2, c2, a2, b2, e2, f2) = lemma_canonical_coords(i2);
    let t1 = a1 + 3 * b1 + 3 * e1 + f1;
    let t2 = a2 + 3 * b2 + 3 * e2 + f2;
    lemma_mod_bound(t1, 9);
    lemma_mod_bound(t2, 9);
    if t1 % 9 == t2 % 9 {
        lemma_fundamental_div_mod(t1, 9);
        lemma_fundamental_div_mod(t2, 9);
        assert(t1 - t2 == 9 * (t1 / 9 - t2 / 9));
        if r1 == r2 {
            // same row: the arguments differ by the column difference
            assert(t1 - t2 == c1 - c2);
            assert(c1 == c2);
            assert(false);
        } else if c1 == c2 {
            // same column: bounded digits force the base-3 digits to agree
            assert(t1 - t2 == (a1 - a2) + 3 * (b1 - b2));
            assert(t1 == t2);
            assert(a1 == a2 && b1 == b2);
            assert(false);
        } else {
            // same box: the band and stack digits already agree
            assert(box_of(i1) == box_of(i2));
            assert(3 * a1 + e1 == 3 * a2 + e2);
            assert(a1 == a2 && e1 == e2);
            assert(t1 - t2 == 3 * (b1 - b2) + (f1 - f2));
            assert(t1 == t2);
            assert(b1 == b2 && f1 == f2);
            assert(false);
        }
    }
    assert(0 <= t1 % 9 < 9 && 0 <= t2 % 9 < 9);
    assert((((t1 % 9) + 1) as u8) != (((t2 % 9) + 1) as u8));
}

/// The canonical grid is a well-formed, fully filled, valid solution.
proof fn lemma_canonical_is_solution()
    ensures
        grid_wf(canonical_grid()),
        grid_full(canonical_grid()),
        grid_valid(canonical_grid()),
{
    let g = canonical_grid();
    assert forall|i: int| 0 <= i < 81 implies cell_wf(#[trigger] g[i]) by {
        lemma_mod_bound(3 * (i / 9) + (i / 9) / 3 + i % 9, 9);
    }
    assert forall|i1: int, i2: int|
        0 <= i1 < 81 && 0 <= i2 < 81 && i1 != i2 && same_unit(i1, i2) && (#[trigger] g[i1]) is Some
            && (#[trigger] g[i2]) is Some implies g[i1] != g[i2] by {
        lemma_canonical_distinct(i1, i2);
        assert(g[i1] == canonical_cell(i1));
        assert(g[i2] == canonical_cell(i2));
    }
    lemma_units_distinct_valid(g);
}

/// Every grid of 81 empty cells has a completion.
pub proof fn lemma_empty_solvable(g: Seq<Option<u8>>)
    requires
        g.len() == 81,
        all_empty(g),
    ensures
        solvable(g),
{
    lemma_canonical_is_solution();
    assert(grid_extends(canonical_grid(), g));
    assert(is_completion(canonical_grid(), g));
}

/// A full, valid row holds every digit from 1 to 9: its nine filled cells
/// carry nine distinct digits out of a pool of nine.
proof fn lemma_full_row_contains_all(s: Seq<Option<u8>>, u: int, d: u8)
    requires
        grid_wf(s),
        grid_full(s),
        grid_valid(s),
        0 <= u < 9,
        1 <= d <= 9,
    ensures
        exists|p: int| 0 <= p < 9 && #[trigger] s[u * 9 + p] == Some(d),
{
    let vals = Seq::new(9, |p: int| row_seq(s, u)[p].unwrap());
    assert forall|p: int| 0 <= p < 9 implies 1 <= #[trigger] vals[p] <= 9 by {
        assert(row_seq(s, u)[p] == s[u * 9 + p]);
        assert(cell_wf(s[u * 9 + p]));
        assert(s[u * 9 + p] is Some);
    }
    assert(vals.no_duplicates()) by {
        assert forall|p1: int, p2: int|
            0 <= p1 < vals.len() && 0 <= p2 < vals.len() && p1 != p2
            implies vals[p1] != vals[p2] by {
            assert(line_valid(row_seq(s, u)));
            assert(row_seq(s, u)[p1] == s[u * 9 + p1]);
            assert(row_seq(s, u)[p2] == s[u * 9 + p2]);
            assert(s[u * 9 + p1] is Some);
            assert(s[u * 9 + p2] is Some);
            if p1 < p2 {
                assert(row_seq(s, u)[p1] != row_seq(s, u)[p2]);
            } else {
                assert(row_seq(s, u)[p2] != row_seq(s, u)[p1]);
            }
        }
    }
    vals.unique_seq_to_set();
    let base = seq![1u8, 2u8, 3u8, 4u8, 5u8, 6u8, 7u8, 8u8, 9u8];
    assert(base[0] == 1 && base[1] == 2 && base[2] == 3 && base[3] == 4 && base[4] == 5 && base[5]
        == 6 && base[6] == 7 && base[7] == 8 && base[8] == 9);
    assert(base.no_duplicates()) by {
        assert forall|p1: int, p2: int|
            0 <= p1 < base.len() && 0 <= p2 < base.len() && p1 != p2
            implies base[p1] != base[p2] by {
            assert(base[p1] == p1 + 1);
            assert(base[p2] == p2 + 1);
        }
    }
    base.unique_seq_to_set();
    assert(base.to_set() =~= Set::new(|x: u8| 1 <= x <= 9)) by {
        assert forall|x: u8| base.to_set().contains(x) implies 1 <= x <= 9 by {
            let p = choose|p: int| 0 <= p < base.len() && base[p] == x;
            assert(base[p] == p + 1);
        }
        assert forall|x: u8| 1 <= x <= 9 implies base.to_set().contains(x) by {
            assert(base[x as int - 1] == x);
            assert(base.contains(x));
        }
    }
    broadcast use vstd::seq_lib::seq_to_set_is_finite;

    assert(vals.to_set().subset_of(base.to_set())) by {
        assert forall|x: u8| vals.to_set().contains(x) implies base.to_set().contains(x) by {
            let p = choose|p: int| 0 <= p < vals.len() && vals[p] == x;
            assert(1 <= vals[p] <= 9);
            assert(base[x as int - 1] == x);
            assert(base.contains(x));
        }
    }
    vstd::set_lib::lemma_subset_equality(vals.to_set(), base.to_set());
    assert(vals.to_set().contains(d));
    assert(vals.contains(d));
    let p = choose|p: int| 0 <= p < vals.len() && vals[p] == d;
    assert(row_seq(s, u)[p] == s[u * 9 + p]);
    assert(s[u * 9 + p] is Some);
    assert(s[u * 9 + p] == Some(d));
}

/// With a single empty cell in an otherwise filled, solvable grid, the
/// digits of its row force the missing digit: the completion is unique.
pub proof fn lemma_one_empty_unique(g: Seq<Option<u8>>, e: int)
    requires
        grid_wf(g),
        0 <= e < 81,
        g[e] is None,
        forall|i: int| 0 <= i < 81 && i != e ==> (#[trigger] g[i]) is Some,
        solvable(g),
    ensures
        unique_completion(g),
{
    assert forall|a: Seq<Option<u8>>, b: Seq<Option<u8>>|
        is_completion(a, g) && is_completion(b, g) implies a == b by {
        let u = e / 9;
        let ce = e % 9;
        lemma_fundamental_div_mod(e, 9);
        lemma_mod_bound(e, 9);
        if a[e] != b[e] {
            assert(a[e] is Some && b[e] is Some);
            let d2 = b[e].unwrap();
            assert(cell_wf(b[e]));
            lemma_full_row_contains_all(a, u, d2);
            let p = choose|p: int| 0 <= p < 9 && #[trigger] a[u * 9 + p] == Some(d2);
            assert(p != ce);
            assert(u * 9 + p != e);
            assert(g[u * 9 + p] is Some);
            assert(a[u * 9 + p] == g[u * 9 + p]);
            assert(b[u * 9 + p] == g[u * 9 + p]);
            assert(line_valid(row_seq(b, u)));
            assert(row_seq(b, u)[p] == b[u * 9 + p]);
            assert(row_seq(b, u)[ce] == b[e]);
            assert(row_seq(b, u)[p] == row_seq(b, u)[ce]);
            if p < ce {
                assert(row_seq(b, u)[p] != row_seq(b, u)[ce]);
            } else {
                assert(row_seq(b, u)[ce] != row_seq(b, u)[p]);
            }
            assert(false);
        }
        assert forall|i: int| 0 <= i < 81 implies a[i] == b[i] by {
            if i != e {
                assert(g[i] is Some);
                assert(a[i] == g[i]);
                assert(b[i] == g[i]);
            }
        }
        assert(a =~= b);
    }
}

/// The sampling heuristic for "this puzzle has a single solution": solve the
/// grid once for a reference, then four more times, and report agreement of
/// all five outcomes. The all-empty grid reports "not unique" by convention,
/// and so does any unsolvable grid; a grid with exactly one completion always
/// reports "unique".
pub fn unique(sudoku: &Sudoku) -> (r: bool)
    requires
        grid_wf(sudoku@),
    ensures
        all_empty(sudoku@) ==> !r,
        !solvable(sudoku@) ==> !r,
        !all_empty(sudoku@) && unique_completion(sudoku@) ==> r,
{
    let mut has_filled = false;
    for i in 0..81usize
        invariant
            grid_wf(sudoku@),
            has_filled ==> !all_empty(sudoku@),
            !has_filled ==> forall|k: int| 0 <= k < i ==> (#[trigger] sudoku@[k]) is None,
    {
        if sudoku.get_cell(i / 9, i % 9).is_some() {
            proof {
                assert(sudoku@[(i / 9) * 9 + i % 9] is Some);
            }
            has_filled = true;
        }
    }
    if !has_filled {
        proof {
            assert(all_empty(sudoku@));
        }
        return false;
    }
    let reference = solve(sudoku.clone_grid());
    match reference {
        None => false,
        Some(solution) => {
            let mut trial: usize = 0;
            while trial < 4
                invariant
                    grid_wf(sudoku@),
                    solvable(sudoku@),
                    !all_empty(sudoku@),
                    is_completion(solution@, sudoku@),
                    trial <= 4,
                decreases 4 - trial,
            {
                match solve(sudoku.clone_grid()) {
                    None => {
                        proof {
                            assert(false);
                        }
                        return false;
                    },
                    Some(other) => {
                        if !other.cells_equal(&solution) {
                            proof {
                                if unique_completion(sudoku@) {
                                    assert(is_completion(other@, sudoku@));
                                    assert(other@ == solution@);
                                }
                            }
                            return false;
                        }
                    },
                }
                trial += 1;
            }
            true
        },
    }
}

/// Build a puzzle: start from a full solution of the empty grid and clear
/// randomly chosen cells while the uniqueness heuristic keeps passing;
/// return the last grid that passed. The result is always a genuine puzzle:
/// solvable, with at least one filled and at least one empty cell — the
/// heuristic accepts the very first removal (a lone empty cell forces its
/// digit), so the untouched full solution is never returned, and it rejects
/// the all-empty grid, so clearing never goes that far.
pub fn generate() -> (r: Sudoku)
    ensures
        grid_wf(r@),
        solvable(r@),
        !all_empty(r@),
        !grid_full(r@),
{
    let empty = Sudoku::empty();
    proof {
        lemma_empty_solvable(empty@);
    }
    let mut s = match solve(empty) {
        Some(solved) => solved,
        None => unreached(),
    };
    proof {
        assert(grid_extends(s@, s@));
        assert(is_completion(s@, s@));
        assert(s@[0] is Some);
    }
    // the iteration bound only provides a termination measure; it is far
    // beyond what any run can reach, so the loop in practice stops only
    // when the heuristic rejects a removal
    let mut fuel: u64 = 0xFFFF_FFFF_FFFF_FFFF;
    while fuel > 0
        invariant
            grid_wf(s@),
            s@.len() == 81,
            solvable(s@),
            !all_empty(s@),
            fuel < 0xFFFF_FFFF_FFFF_FFFF ==> !grid_full(s@),
        decreases fuel,
    {
        let previous = s.clone_grid();
        let pick = random_cell_index();
        let ghost before = s@;
        s.set_cell(pick / 9, pick % 9, None);
        let ghost idx = (pick / 9) * 9 + pick % 9;
        proof {
            let w = choose|w: Seq<Option<u8>>| is_completion(w, before);
            assert(is_completion(w, before));
            assert forall|i: int| 0 <= i < 81 && (#[trigger] s@[i]) is Some implies w[i] == s@[i] by {
                assert(i != idx);
                assert(s@[i] == before[i]);
            }
            assert(is_completion(w, s@));
        }
        if !unique(&s) {
            proof {
                // the full solution never comes back: with `before` full the
                // cleared grid has a single empty cell, whose digit is
                // forced, so the heuristic would have accepted the removal
                if grid_full(before) {
                    let w = choose|w: Seq<Option<u8>>| is_completion(w, before);
                    assert forall|i: int| 0 <= i < 81 implies w[i] == #[trigger] before[i] by {
                        assert(before[i] is Some);
                    }
                    assert(w =~= before);
                    assert(grid_valid(before));
                    assert(s@[idx] is None);
                    assert(forall|i: int|
                        0 <= i < 81 && i != idx ==> (#[trigger] s@[i]) is Some);
                    lemma_one_empty_unique(s@, idx);
                    if idx == 0 {
                        assert(s@[1] is Some);
                    } else {
                        assert(s@[0] is Some);
                    }
                    assert(!all_empty(s@));
                    assert(false);
                }
            }
            return previous;
        }
        proof {
            assert(s@[idx] is None);
            assert(!grid_full(s@));
        }
        fuel = fuel - 1;
    }
    s
}

} // verus!
