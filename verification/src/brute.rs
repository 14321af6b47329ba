//! Propagation-free enumeration of completions of a raw digit grid.
//!
//! `brute_force` is an explicit-stack backtracking solver: it resumes from
//! the cell on top of the stack, scans forward in row-major order, tries
//! ever larger digits in originally-blank cells, and backtracks when a cell
//! has none left.  Each call yields one more completion (returning true) until
//! the space is exhausted (returning false); `brute_force_all` collects them
//! all.

use vstd::arithmetic::power::lemma_pow1;
use vstd::arithmetic::power::lemma_pow_adds;
use vstd::arithmetic::power::lemma_pow_positive;
use vstd::arithmetic::power::pow;
use vstd::prelude::*;

use crate::model::col_of;
use crate::model::grid_complete;
use crate::model::grid_consistent;
use crate::model::grid_wf;
use crate::model::gval;
use crate::model::row_of;
use crate::model::shares_unit;

verus! {

/// Cell `i` was blank in the original puzzle.
pub open spec fn blank(e: Seq<Seq<bool>>, i: int) -> bool {
    e[i / 9][i % 9]
}

/// Every cell not marked blank holds a nonzero digit.
pub open spec fn mask_ok(g: Seq<Seq<u32>>, e: Seq<Seq<bool>>) -> bool {
    forall|i: int| 0 <= i < 81 && !blank(e, i) ==> #[trigger] gval(g, i) != 0
}

/// The grid with `d` written at cell `i`.
pub open spec fn grid_upd(g: Seq<Seq<u32>>, i: int, d: u32) -> Seq<Seq<u32>> {
    g.update(i / 9, g[i / 9].update(i % 9, d))
}

/// Digit `d` appears in no cell sharing cell `i`'s row, column, or box.
pub open spec fn digit_free(g: Seq<Seq<u32>>, i: int, d: u32) -> bool {
    forall|j: int| 0 <= j < 81 && #[trigger] shares_unit(i, j) ==> gval(g, j) != d
}

/// Writing one cell changes that cell's value and no other.
pub proof fn lemma_grid_upd(g: Seq<Seq<u32>>, i: int, d: u32)
    requires
        grid_wf(g),
        0 <= i < 81,
        d <= 9,
    ensures
        grid_wf(grid_upd(g, i, d)),
        gval(grid_upd(g, i, d), i) == d,
        forall|j: int| 0 <= j < 81 && j != i ==> #[trigger] gval(grid_upd(g, i, d), j) == gval(
            g,
            j,
        ),
{
    let ng = grid_upd(g, i, d);
    assert forall|j: int| 0 <= j < 81 && j != i implies #[trigger] gval(ng, j) == gval(g, j) by {
        if j / 9 == i / 9 {
            assert(j % 9 != i % 9);
        }
    }
    assert(gval(ng, i) == d);
    assert forall|j: int| 0 <= j < 81 implies #[trigger] gval(ng, j) <= 9 by {
        if j != i {
            assert(gval(ng, j) == gval(g, j));
        }
    }
}

/// Writing 0, or a digit no row, column, or box peer holds, keeps the grid
/// consistent.
pub proof fn lemma_grid_write_consistent(g: Seq<Seq<u32>>, i: int, d: u32)
    requires
        grid_wf(g),
        grid_consistent(g),
        0 <= i < 81,
        d <= 9,
        d != 0 ==> digit_free(g, i, d),
    ensures
        grid_consistent(grid_upd(g, i, d)),
{
    let ng = grid_upd(g, i, d);
    lemma_grid_upd(g, i, d);
    assert forall|a: int, b: int|
        #![trigger gval(ng, a), gval(ng, b)]
        0 <= a < 81 && 0 <= b < 81 && a != b && shares_unit(a, b) && gval(ng, a) != 0 implies gval(
        ng,
        a,
    ) != gval(ng, b) by {
        if a == i {
            assert(gval(ng, b) == gval(g, b));
            assert(shares_unit(i, b));
        } else if b == i {
            assert(gval(ng, a) == gval(g, a));
            assert(shares_unit(i, a));
            if d != 0 {
                assert(gval(g, a) != d);
            }
        } else {
            assert(gval(ng, a) == gval(g, a) && gval(ng, b) == gval(g, b));
        }
    }
}

/// Write `d` into cell (`row`, `col`) of the raw grid.
fn write_cell(board: &mut [[u32; 9]; 9], row: usize, col: usize, d: u32)
    requires
        row < 9,
        col < 9,
    ensures
        final(board).deep_view() == grid_upd(old(board).deep_view(), row as int * 9 + col, d),
{
    let mut rowarr = board[row];
    rowarr[col] = d;
    board[row] = rowarr;
    proof {
        let i = row as int * 9 + col;
        assert(i / 9 == row && i % 9 == col);
        assert(board.deep_view() =~~= grid_upd(old(board).deep_view(), i, d));
    }
}

/// Whether digit `d` appears nowhere in the row, the column, or the 3x3 box
/// of (`row`, `col`).
#[verifier::loop_isolation(false)]
fn digit_ok(board: &[[u32; 9]; 9], row: usize, col: usize, d: u32) -> (r: bool)
    requires
        row < 9,
        col < 9,
    ensures
        r == digit_free(board.deep_view(), row as int * 9 + col, d),
{
    let ghost g = board.deep_view();
    let ghost i = row as int * 9 + col;
    proof {
        assert(row_of(i) == row && col_of(i) == col);
    }
    // The row.
    let mut k: usize = 0;
    while k < 9
        invariant
            k <= 9,
            forall|j: int|
                0 <= j < 81 && row_of(j) == row && col_of(j) < k ==> #[trigger] gval(g, j) != d,
        decreases 9 - k,
    {
        proof {
            assert(row_of(row as int * 9 + k) == row && col_of(row as int * 9 + k) == k);
        }
        if board[row][k] == d {
            proof {
                assert(gval(g, row as int * 9 + k) == d);
                assert(shares_unit(i, row as int * 9 + k));
            }
            return false;
        }
        k += 1;
    }
    // The column.
    let mut k: usize = 0;
    while k < 9
        invariant
            k <= 9,
            forall|j: int|
                0 <= j < 81 && row_of(j) == row && col_of(j) < 9 ==> #[trigger] gval(g, j) != d,
            forall|j: int|
                0 <= j < 81 && col_of(j) == col && row_of(j) < k ==> #[trigger] gval(g, j) != d,
        decreases 9 - k,
    {
        proof {
            assert(row_of(k * 9 + col as int) == k && col_of(k * 9 + col as int) == col);
        }
        if board[k][col] == d {
            proof {
                assert(gval(g, k * 9 + col as int) == d);
                assert(shares_unit(i, k * 9 + col as int));
            }
            return false;
        }
        k += 1;
    }
    // The box.
    let rs = (row / 3) * 3;
    let cs = (col / 3) * 3;
    let mut k: usize = 0;
    while k < 9
        invariant
            k <= 9,
            forall|j: int|
                0 <= j < 81 && row_of(j) == row && col_of(j) < 9 ==> #[trigger] gval(g, j) != d,
            forall|j: int|
                0 <= j < 81 && col_of(j) == col && row_of(j) < 9 ==> #[trigger] gval(g, j) != d,
            forall|j: int|
                0 <= j < 81 && row_of(j) / 3 == row as int / 3 && col_of(j) / 3 == col as int / 3
                    && (row_of(j) - rs) * 3 + (col_of(j) - cs) < k ==> #[trigger] gval(g, j) != d,
        decreases 9 - k,
    {
        let jr = rs + k / 3;
        let jc = cs + k % 3;
        let ghost j = jr as int * 9 + jc;
        proof {
            assert(row_of(j) == jr && col_of(j) == jc);
            assert((row_of(j) - rs) * 3 + (col_of(j) - cs) == k);
        }
        if board[jr][jc] == d {
            proof {
                assert(gval(g, j) == d);
                assert(shares_unit(i, j));
            }
            return false;
        }
        k += 1;
    }
    proof {
        assert forall|j: int| 0 <= j < 81 && #[trigger] shares_unit(i, j) implies gval(g, j)
            != d by {
            if row_of(j) == row_of(i) {
            } else if col_of(j) == col_of(i) {
            } else {
                assert(0 <= (row_of(j) - rs) * 3 + (col_of(j) - cs) < 9);
            }
        }
    }
    true
}

/// The smallest digit strictly greater than the cell's current value that
/// no cell of the same row, column, or box holds; None when there is none.
#[verifier::loop_isolation(false)]
fn next_digit(board: &[[u32; 9]; 9], row: usize, col: usize) -> (r: Option<u32>)
    requires
        grid_wf(board.deep_view()),
        row < 9,
        col < 9,
    ensures
        match r {
            Some(d) => {
                &&& gval(board.deep_view(), row as int * 9 + col) < d <= 9
                &&& digit_free(board.deep_view(), row as int * 9 + col, d)
                &&& forall|e: u32|
                    gval(board.deep_view(), row as int * 9 + col) < e < d ==> !(#[trigger] digit_free(
                        board.deep_view(),
                        row as int * 9 + col,
                        e,
                    ))
            },
            None => forall|e: u32|
                gval(board.deep_view(), row as int * 9 + col) < e <= 9 ==> !(#[trigger] digit_free(
                    board.deep_view(),
                    row as int * 9 + col,
                    e,
                )),
        },
{
    let ghost g = board.deep_view();
    let ghost i = row as int * 9 + col;
    proof {
        assert(row_of(i) == row && col_of(i) == col);
        assert(gval(g, i) <= 9);
    }
    let v = board[row][col];
    proof {
        assert(v == gval(g, i));
    }
    let mut d: u32 = v + 1;
    while d <= 9
        invariant
            v < d <= 10,
            forall|e: u32| v < e < d ==> !(#[trigger] digit_free(g, i, e)),
        decreases 10 - d,
    {
        if digit_ok(board, row, col, d) {
            return Some(d);
        }
        d += 1;
    }
    None
}

/// The row-major cell index of a stack entry.
pub open spec fn pidx(p: (usize, usize)) -> int {
    p.0 * 9 + p.1
}

/// Stack validity between calls: in-bounds entries at strictly increasing
/// positions, at most 81 of them; every entry below the resume point (the
/// top) marks a blank cell holding a tentative nonzero digit; and every
/// blank cell before the resume point is on the stack.
pub open spec fn stack_ok(st: Seq<(usize, usize)>, g: Seq<Seq<u32>>, e: Seq<Seq<bool>>) -> bool {
    &&& st.len() <= 81
    &&& forall|k: int| 0 <= k < st.len() ==> (#[trigger] st[k]).0 < 9 && st[k].1 < 9
    &&& forall|k1: int, k2: int|
        #![trigger st[k1], st[k2]]
        0 <= k1 < k2 < st.len() ==> pidx(st[k1]) < pidx(st[k2])
    &&& forall|k: int|
        0 <= k < st.len() - 1 ==> blank(e, pidx(#[trigger] st[k])) && gval(g, pidx(st[k])) != 0
    &&& forall|p: int|
        st.len() > 0 && 0 <= p < pidx(st[st.len() - 1]) && #[trigger] blank(e, p)
            ==> exists|k: int| 0 <= k < st.len() - 1 && pidx(#[trigger] st[k]) == p
    &&& forall|p: int|
        st.len() > 0 && pidx(st[st.len() - 1]) < p < 81 && #[trigger] blank(e, p) ==> gval(g, p)
            == 0
}

/// Some stack entry sits at cell `p`.
pub open spec fn on_stack(st: Seq<(usize, usize)>, p: int) -> bool {
    exists|k: int| 0 <= k < st.len() && pidx(#[trigger] st[k]) == p
}

/// The stack holds exactly the blank cells: after a success every blank
/// cell carries a tentative digit and sits on the stack.
pub open spec fn stack_lists_blanks(st: Seq<(usize, usize)>, e: Seq<Seq<bool>>) -> bool {
    forall|p: int| 0 <= p < 81 ==> (#[trigger] blank(e, p) <==> on_stack(st, p))
}

/// How much of the search space is left to the right of the path of
/// tentative digits on the stack: a digit `d` placed at depth `k` leaves
/// weight `(10 - d) * 10^(81 - k)`.  Every backtracking step lowers it.
pub open spec fn stack_measure(st: Seq<(usize, usize)>, g: Seq<Seq<u32>>) -> int
    decreases st.len(),
{
    if st.len() == 0 {
        0
    } else {
        stack_measure(st.drop_last(), g) + (10 - gval(g, pidx(st.last()))) * pow(
            10,
            (82 - st.len()) as nat,
        )
    }
}

/// The digit the measure charges a scan cell with: its value if the cell is
/// blank, 0 (nothing tried yet) otherwise.
pub open spec fn wval(g: Seq<Seq<u32>>, e: Seq<Seq<bool>>, p: int) -> u32 {
    if blank(e, p) {
        gval(g, p)
    } else {
        0u32
    }
}

/// The measure at a call boundary: the top of the stack is the resume cell,
/// charged by `wval`.  Each successful `brute_force` call lowers it.
pub open spec fn call_measure(st: Seq<(usize, usize)>, g: Seq<Seq<u32>>, e: Seq<Seq<bool>>) -> int {
    if st.len() == 0 {
        0
    } else {
        stack_measure(st.drop_last(), g) + (10 - wval(g, e, pidx(st[st.len() - 1]))) * pow(
            10,
            (82 - st.len()) as nat,
        )
    }
}

/// The measure at a loop head inside `brute_force`: the stack plus the
/// current scan cell.
pub open spec fn scan_measure(
    st: Seq<(usize, usize)>,
    g: Seq<Seq<u32>>,
    e: Seq<Seq<bool>>,
    idx: int,
) -> int {
    stack_measure(st, g) + (10 - wval(g, e, idx)) * pow(10, (81 - st.len()) as nat)
}

proof fn lemma_p10(n: nat)
    ensures
        pow(10, n + 1) == 10 * pow(10, n),
        pow(10, n) > 0,
{
    lemma_pow_positive(10, n);
    lemma_pow_adds(10, n, 1);
    lemma_pow1(10);
}

/// The stack measure reads the grid only at the stack's own positions.
proof fn lemma_stack_measure_same(st: Seq<(usize, usize)>, g1: Seq<Seq<u32>>, g2: Seq<Seq<u32>>)
    requires
        forall|k: int|
            0 <= k < st.len() ==> gval(g1, pidx(#[trigger] st[k])) == gval(g2, pidx(st[k])),
    ensures
        stack_measure(st, g1) == stack_measure(st, g2),
    decreases st.len(),
{
    if st.len() > 0 {
        lemma_stack_measure_same(st.drop_last(), g1, g2);
    }
}

/// The stack measure is never negative on a well-formed grid.
proof fn lemma_stack_measure_nonneg(st: Seq<(usize, usize)>, g: Seq<Seq<u32>>)
    requires
        st.len() <= 81,
        forall|k: int| 0 <= k < st.len() ==> gval(g, pidx(#[trigger] st[k])) <= 9,
    ensures
        stack_measure(st, g) >= 0,
    decreases st.len(),
{
    if st.len() > 0 {
        lemma_stack_measure_nonneg(st.drop_last(), g);
        let v = gval(g, pidx(st.last()));
        let p = pow(10, (82 - st.len()) as nat);
        lemma_pow_positive(10, (82 - st.len()) as nat);
        assert((10 - v) * p >= 0) by (nonlinear_arith)
            requires
                10 - v >= 1,
                p > 0,
        ;
    }
}

/// Positions strictly increase along the stack, so the position of the
/// `k`-th entry is at least `k`.
proof fn lemma_increasing_ge(st: Seq<(usize, usize)>)
    requires
        forall|k1: int, k2: int|
            #![trigger st[k1], st[k2]]
            0 <= k1 < k2 < st.len() ==> pidx(st[k1]) < pidx(st[k2]),
        forall|k: int| 0 <= k < st.len() ==> (#[trigger] st[k]).0 < 9 && st[k].1 < 9,
    ensures
        forall|k: int| 0 <= k < st.len() ==> k <= pidx(#[trigger] st[k]),
    decreases st.len(),
{
    if st.len() > 0 {
        lemma_increasing_ge(st.drop_last());
        assert forall|k: int| 0 <= k < st.len() implies k <= pidx(#[trigger] st[k]) by {
            if k < st.len() - 1 {
                assert(st.drop_last()[k] == st[k]);
            } else if k > 0 {
                assert(st.drop_last()[k - 1] == st[k - 1]);
                assert(pidx(st[k - 1]) < pidx(st[k]));
            }
        }
    }
}

/// Placing a fitting digit at the scan cell and pushing it lowers the path
/// measure (strictly below the pre-place scan measure for the new stack
/// alone, at most equal for the new scan measure).
proof fn lemma_place_measure(
    st: Seq<(usize, usize)>,
    g: Seq<Seq<u32>>,
    e: Seq<Seq<bool>>,
    row: usize,
    col: usize,
    d: u32,
)
    requires
        row < 9,
        col < 9,
        grid_wf(g),
        st.len() <= 80,
        forall|k: int| 0 <= k < st.len() ==> (#[trigger] st[k]).0 < 9 && st[k].1 < 9,
        forall|k: int| 0 <= k < st.len() ==> pidx(#[trigger] st[k]) < row as int * 9 + col,
        blank(e, row as int * 9 + col),
        gval(g, row as int * 9 + col) < d,
        d <= 9,
    ensures
        ({
            let idx = row as int * 9 + col;
            let g1 = grid_upd(g, idx, d);
            let st1 = st.push((row, col));
            &&& idx < 80 ==> scan_measure(st1, g1, e, idx + 1) <= scan_measure(st, g, e, idx)
                && scan_measure(st1, g1, e, idx + 1) >= 0
            &&& stack_measure(st1, g1) < scan_measure(st, g, e, idx)
            &&& stack_measure(st1, g1) == call_measure(st1, g1, e)
        }),
{
    let idx = row as int * 9 + col;
    let g1 = grid_upd(g, idx, d);
    let st1 = st.push((row, col));
    let len = st.len() as int;
    let v = gval(g, idx);
    lemma_grid_upd(g, idx, d);
    lemma_stack_measure_same(st, g, g1);
    lemma_stack_measure_nonneg(st, g);
    assert(st1.drop_last() =~= st);
    assert(pidx(st1[st1.len() - 1]) == idx);
    let p81 = pow(10, (81 - len) as nat);
    let p80 = pow(10, (80 - len) as nat);
    lemma_p10((80 - len) as nat);
    assert(stack_measure(st1, g1) == stack_measure(st, g) + (10 - d) * p81);
    assert(call_measure(st1, g1, e) == stack_measure(st, g1) + (10 - wval(g1, e, idx)) * pow(
        10,
        (82 - st1.len()) as nat,
    ));
    assert(wval(g1, e, idx) == d);
    let w0 = wval(g, e, idx);
    assert(w0 == v);
    assert(scan_measure(st, g, e, idx) == stack_measure(st, g) + (10 - v) * p81);
    assert((10 - d) * p81 >= 0 && (10 - d) * p81 < (10 - v) * p81) by (nonlinear_arith)
        requires
            v < d <= 10,
            p80 > 0,
            p81 > 0,
    ;
    if idx < 80 {
        let w1 = wval(g1, e, idx + 1);
        assert(w1 <= 9) by {
            if blank(e, idx + 1) {
                assert(gval(g1, idx + 1) <= 9);
            }
        }
        assert(scan_measure(st1, g1, e, idx + 1) == stack_measure(st, g) + (10 - d) * p81 + (10
            - w1) * p80);
        assert((10 - d) * p81 + (10 - w1) * p80 <= (10 - v) * p81) by (nonlinear_arith)
            requires
                d > v,
                0 <= w1,
                p80 > 0,
                p81 == 10 * p80,
        ;
        assert((10 - w1) * p80 >= 0) by (nonlinear_arith)
            requires
                w1 <= 10,
                p80 > 0,
        ;
    }
}

/// A cell beyond `idx + 1` can only hold a digit of at most 9 on a
/// well-formed grid, so the scan measure stays nonnegative and does not grow
/// when the scan skips a fixed cell.
proof fn lemma_skip_measure(st: Seq<(usize, usize)>, g: Seq<Seq<u32>>, e: Seq<Seq<bool>>, idx: int)
    requires
        grid_wf(g),
        0 <= idx < 80,
        st.len() <= 80,
        forall|k: int| 0 <= k < st.len() ==> (#[trigger] st[k]).0 < 9 && st[k].1 < 9,
        !blank(e, idx),
    ensures
        scan_measure(st, g, e, idx + 1) <= scan_measure(st, g, e, idx),
        scan_measure(st, g, e, idx + 1) >= 0,
{
    let len = st.len() as int;
    let p81 = pow(10, (81 - len) as nat);
    lemma_p10((81 - len) as nat);
    lemma_stack_measure_nonneg(st, g);
    let w1 = wval(g, e, idx + 1);
    assert(w1 <= 9) by {
        if blank(e, idx + 1) {
            assert(gval(g, idx + 1) <= 9);
        }
    }
    assert(wval(g, e, idx) == 0);
    assert(0 <= (10 - w1) * p81 <= 10 * p81) by (nonlinear_arith)
        requires
            0 <= w1 <= 10,
            p81 > 0,
    ;
}

/// Clearing the scan cell and backtracking to the cell below it on the
/// stack strictly lowers the scan measure.
proof fn lemma_backtrack_measure(
    st: Seq<(usize, usize)>,
    g: Seq<Seq<u32>>,
    e: Seq<Seq<bool>>,
    idx: int,
)
    requires
        grid_wf(g),
        0 <= idx < 81,
        1 <= st.len() <= 80,
        forall|k: int| 0 <= k < st.len() ==> (#[trigger] st[k]).0 < 9 && st[k].1 < 9,
        forall|k: int|
            0 <= k < st.len() ==> pidx(#[trigger] st[k]) < idx && blank(e, pidx(st[k])),
    ensures
        ({
            let g1 = grid_upd(g, idx, 0);
            let st1 = st.drop_last();
            let idx1 = pidx(st[st.len() - 1]);
            &&& scan_measure(st1, g1, e, idx1) < scan_measure(st, g, e, idx)
            &&& scan_measure(st1, g1, e, idx1) >= 0
            &&& scan_measure(st1, g1, e, idx1) == stack_measure(st, g)
        }),
{
    let g1 = grid_upd(g, idx, 0);
    let st1 = st.drop_last();
    let len = st.len() as int;
    let idx1 = pidx(st[len - 1]);
    lemma_grid_upd(g, idx, 0);
    lemma_stack_measure_same(st1, g, g1);
    lemma_stack_measure_nonneg(st1, g1);
    lemma_stack_measure_nonneg(st, g);
    let p82 = pow(10, (82 - len) as nat);
    let p81 = pow(10, (81 - len) as nat);
    lemma_p10((81 - len) as nat);
    lemma_pow_positive(10, (82 - len) as nat);
    assert(stack_measure(st, g) == stack_measure(st1, g) + (10 - gval(g, idx1)) * p82);
    assert(wval(g1, e, idx1) == gval(g1, idx1));
    assert(gval(g1, idx1) == gval(g, idx1));
    assert(scan_measure(st1, g1, e, idx1) == stack_measure(st1, g1) + (10 - gval(g, idx1)) * pow(
        10,
        (81 - st1.len()) as nat,
    ));
    assert((81 - st1.len()) as nat == (82 - len) as nat);
    assert(scan_measure(st1, g1, e, idx1) == stack_measure(st, g));
    let w = wval(g, e, idx);
    assert(w <= 9);
    assert((10 - w) * p81 > 0) by (nonlinear_arith)
        requires
            w <= 9,
            p81 > 0,
    ;
    assert(scan_measure(st, g, e, idx) == stack_measure(st, g) + (10 - w) * p81);
}

/// A success at a fixed final cell: the call measure of the untouched stack
/// sits strictly below the current scan measure.
proof fn lemma_fixed_success_measure(
    st: Seq<(usize, usize)>,
    g: Seq<Seq<u32>>,
    e: Seq<Seq<bool>>,
    idx: int,
)
    requires
        grid_wf(g),
        0 <= idx < 81,
        st.len() <= 80,
        forall|k: int| 0 <= k < st.len() ==> (#[trigger] st[k]).0 < 9 && st[k].1 < 9,
        forall|k: int| 0 <= k < st.len() ==> blank(e, pidx(#[trigger] st[k])),
        !blank(e, idx),
    ensures
        call_measure(st, g, e) < scan_measure(st, g, e, idx),
{
    let len = st.len() as int;
    let p81 = pow(10, (81 - len) as nat);
    lemma_p10((81 - len) as nat);
    lemma_stack_measure_nonneg(st, g);
    assert(wval(g, e, idx) == 0);
    assert(scan_measure(st, g, e, idx) == stack_measure(st, g) + 10 * p81);
    assert(10 * p81 > 0) by (nonlinear_arith)
        requires
            p81 > 0,
    ;
    if st.len() > 0 {
        assert(wval(g, e, pidx(st[len - 1])) == gval(g, pidx(st[len - 1])));
        assert(call_measure(st, g, e) == stack_measure(st.drop_last(), g) + (10 - gval(
            g,
            pidx(st[len - 1]),
        )) * pow(10, (82 - len) as nat));
        assert(call_measure(st, g, e) == stack_measure(st, g));
    }
}

/// One step of resumable, propagation-free backtracking: resume at the cell
/// popped off the stack, scan forward in row-major order, try ever larger
/// digits in originally-blank cells, and backtrack when none fits.  Returns
/// true with a completed consistent grid on the board and the stack primed
/// to resume after it, skipping no completion on the way there; or false,
/// with the stack empty and every blank cell cleared again, exactly when no
/// completion is left at or after the resume point.
#[verifier::rlimit(100)]
pub fn brute_force(
    board: &mut [[u32; 9]; 9],
    empty: &[[bool; 9]; 9],
    stack: &mut Vec<(usize, usize)>,
) -> (r: bool)
    requires
        grid_wf(old(board).deep_view()),
        grid_consistent(old(board).deep_view()),
        mask_ok(old(board).deep_view(), empty.deep_view()),
        stack_ok(old(stack)@, old(board).deep_view(), empty.deep_view()),
    ensures
        grid_wf(final(board).deep_view()),
        grid_consistent(final(board).deep_view()),
        mask_ok(final(board).deep_view(), empty.deep_view()),
        forall|i: int|
            0 <= i < 81 && !blank(empty.deep_view(), i) ==> gval(final(board).deep_view(), i)
                == gval(old(board).deep_view(), i),
        r ==> grid_complete(final(board).deep_view()),
        r ==> stack_ok(final(stack)@, final(board).deep_view(), empty.deep_view()),
        r ==> stack_lists_blanks(final(stack)@, empty.deep_view()),
        r ==> call_measure(final(stack)@, final(board).deep_view(), empty.deep_view())
            < call_measure(old(stack)@, old(board).deep_view(), empty.deep_view()),
        !r ==> final(stack)@.len() == 0,
        !r && old(stack)@.len() > 0 ==> forall|p: int|
            0 <= p < 81 && #[trigger] blank(empty.deep_view(), p) ==> gval(
                final(board).deep_view(),
                p,
            ) == 0,
        old(stack)@.len() == 0 ==> !r && *final(board) == *old(board),
        !r ==> forall|t: Seq<Seq<u32>>|
            sol_mask(t, old(board).deep_view(), empty.deep_view()) ==> #[trigger] enc(
                t,
                empty.deep_view(),
            ) >= call_measure(old(stack)@, old(board).deep_view(), empty.deep_view()),
        r ==> forall|t: Seq<Seq<u32>>|
            sol_mask(t, old(board).deep_view(), empty.deep_view()) && #[trigger] enc(
                t,
                empty.deep_view(),
            ) < call_measure(old(stack)@, old(board).deep_view(), empty.deep_view()) ==> t
                == final(board).deep_view() || enc(t, empty.deep_view()) < call_measure(
                final(stack)@,
                final(board).deep_view(),
                empty.deep_view(),
            ),
{
    let ghost g0 = board.deep_view();
    let ghost e = empty.deep_view();
    let ghost st0 = stack@;

    // The top of the stack is the resume point; an empty stack means no
    // starting point is left.
    let (prow, pcol) = match stack.pop() {
        Option::None => {
            proof {
                assert forall|t: Seq<Seq<u32>>| sol_mask(t, g0, e) implies #[trigger] enc(t, e)
                    >= call_measure(st0, g0, e) by {
                    lemma_blanks_stack_props(e, 81);
                    lemma_stack_measure_nonneg(blanks_stack(e, 81), t);
                }
            }
            return false;
        },
        Option::Some(rc) => rc,
    };
    let mut idx: usize = prow * 9 + pcol;
    proof {
        assert(stack@ == st0.drop_last());
        assert((prow, pcol) == st0[st0.len() - 1]);
        assert(idx == pidx(st0[st0.len() - 1]));
        lemma_increasing_ge(st0);
        lemma_stack_measure_nonneg(stack@, g0);
        assert(scan_measure(stack@, g0, e, idx as int) == call_measure(st0, g0, e));
        assert forall|p: int|
            0 <= p < idx && #[trigger] blank(e, p) implies exists|k: int|
            0 <= k < stack@.len() && pidx(#[trigger] stack@[k]) == p by {
            let k = choose|k: int| 0 <= k < st0.len() - 1 && pidx(#[trigger] st0[k]) == p;
            assert(stack@[k] == st0[k]);
            assert(pidx(stack@[k]) == p);
        }
        lemma_p10((81 - stack@.len()) as nat);
        assert((10 - wval(g0, e, idx as int)) * pow(10, (81 - stack@.len()) as nat) >= 0)
            by (nonlinear_arith)
            requires
                10 - wval(g0, e, idx as int) >= 1,
                pow(10, (81 - stack@.len()) as nat) > 0,
        ;
        lemma_blanks_stack_props(e, idx as int);
        assert forall|p: int| #[trigger] on_stack(stack@, p) <==> on_stack(
            blanks_stack(e, idx as int),
            p,
        ) by {
            if on_stack(stack@, p) {
                let k = choose|k: int| 0 <= k < stack@.len() && pidx(#[trigger] stack@[k]) == p;
                assert(stack@[k] == st0[k]);
                assert(blank(e, p) && 0 <= p < idx);
                assert(on_stack(blanks_stack(e, idx as int), p));
            }
            if on_stack(blanks_stack(e, idx as int), p) {
                let k = choose|k: int|
                    0 <= k < blanks_stack(e, idx as int).len() && pidx(
                        #[trigger] blanks_stack(e, idx as int)[k],
                    ) == p;
                assert(0 <= p < idx && blank(e, p));
                let k2 = choose|k2: int| 0 <= k2 < st0.len() - 1 && pidx(#[trigger] st0[k2]) == p;
                assert(stack@[k2] == st0[k2]);
                assert(pidx(stack@[k2]) == p);
            }
        }
        lemma_sorted_stack_unique(stack@, blanks_stack(e, idx as int));
    }

    loop
        invariant
            e == empty.deep_view(),
            g0 == old(board).deep_view(),
            st0 == old(stack)@,
            st0.len() > 0,
            grid_wf(g0),
            idx <= 80,
            stack@.len() <= 80,
            grid_wf(board.deep_view()),
            grid_consistent(board.deep_view()),
            mask_ok(board.deep_view(), e),
            forall|i: int|
                0 <= i < 81 && !blank(e, i) ==> #[trigger] gval(board.deep_view(), i) == gval(
                    g0,
                    i,
                ),
            forall|k: int| 0 <= k < stack@.len() ==> (#[trigger] stack@[k]).0 < 9 && stack@[k].1
                < 9,
            forall|k: int|
                0 <= k < stack@.len() ==> blank(e, pidx(#[trigger] stack@[k])) && gval(
                    board.deep_view(),
                    pidx(stack@[k]),
                ) != 0 && k <= pidx(stack@[k]) && pidx(stack@[k]) < idx,
            forall|k1: int, k2: int|
                #![trigger stack@[k1], stack@[k2]]
                0 <= k1 < k2 < stack@.len() ==> pidx(stack@[k1]) < pidx(stack@[k2]),
            forall|p: int|
                0 <= p < idx && #[trigger] blank(e, p) ==> exists|k: int|
                    0 <= k < stack@.len() && pidx(#[trigger] stack@[k]) == p,
            forall|p: int|
                idx < p < 81 && #[trigger] blank(e, p) ==> gval(board.deep_view(), p) == 0,
            stack@ == blanks_stack(e, idx as int),
            forall|t: Seq<Seq<u32>>|
                sol_mask(t, g0, e) && #[trigger] enc(t, e) < call_measure(st0, g0, e) ==> enc(t, e)
                    < scan_measure(stack@, board.deep_view(), e, idx as int),
            scan_measure(stack@, board.deep_view(), e, idx as int) <= call_measure(st0, g0, e),
            scan_measure(stack@, board.deep_view(), e, idx as int) >= 0,
        decreases scan_measure(stack@, board.deep_view(), e, idx as int), 81 - idx,
    {
        let row = idx / 9;
        let col = idx % 9;
        proof {
            assert(row_of(idx as int) == row && col_of(idx as int) == col);
        }
        let ghost gpre = board.deep_view();
        let ghost stpre = stack@;
        let ghost len = stpre.len() as int;
        let cur = board[row][col];
        proof {
            assert(cur == gval(gpre, idx as int));
            assert(empty@[row as int]@[col as int] == blank(e, idx as int));
        }
        if cur == 0 || empty[row][col] {
            proof {
                assert(blank(e, idx as int));
            }
            match next_digit(board, row, col) {
                Option::Some(d) => {
                    // A digit fits: place it and push the cell.
                    write_cell(board, row, col, d);
                    stack.push((row, col));
                    proof {
                        lemma_grid_upd(gpre, idx as int, d);
                        lemma_grid_write_consistent(gpre, idx as int, d);
                        lemma_place_measure(stpre, gpre, e, row, col, d);
                        assert(stack@.drop_last() =~= stpre);
                        assert(stack@[stack@.len() - 1] == (row, col));
                        let g1 = board.deep_view();
                        let v = gval(gpre, idx as int);
                        let len = stpre.len() as int;
                        let pl = pow(10, (81 - len) as nat);
                        let ps = pow(10, (80 - len) as nat);
                        lemma_p10((80 - len) as nat);
                        lemma_p10((81 - len) as nat);
                        if idx < 80 {
                            assert(wval(g1, e, idx as int + 1) == 0);
                        }
                        lemma_stack_measure_same(stpre, gpre, g1);
                        // No completion below the entry point is skipped by
                        // moving on to digit d here.
                        lemma_place_no_skip_all(
                            g0,
                            gpre,
                            e,
                            stpre,
                            idx as int,
                            d,
                            call_measure(st0, g0, e),
                        );
                        assert(stpre.push(
                            ((idx as int / 9) as usize, ((idx as int) % 9) as usize),
                        ) =~= stack@);
                        assert(stack@ == blanks_stack(e, idx as int + 1));
                        assert(stack_measure(stack@, g1) == stack_measure(stpre, gpre) + (10 - d)
                            * pl) by {
                            assert(stack@.drop_last() =~= stpre);
                            assert(pidx(stack@[stack@.len() - 1]) == idx as int);
                            assert(gval(g1, idx as int) == d);
                        }
                    }
                    // Reaching the last cell with a digit placed: a full
                    // solution.
                    if row == 8 && col == 8 {
                        proof {
                            let g1 = board.deep_view();
                            assert(grid_complete(g1)) by {
                                assert forall|i: int| 0 <= i < 81 implies #[trigger] gval(g1, i)
                                    != 0 by {
                                    if i < 80 {
                                        if blank(e, i) {
                                            let k = choose|k: int|
                                                0 <= k < stpre.len() && pidx(
                                                    #[trigger] stpre[k],
                                                ) == i;
                                            assert(gval(gpre, pidx(stpre[k])) != 0);
                                        }
                                    }
                                }
                            }
                            assert(call_measure(stack@, g1, e) == stack_measure(stack@, g1));
                            assert(g1 == board.deep_view());
                            assert forall|p: int|
                                pidx(stack@[stack@.len() - 1]) < p < 81 && #[trigger] blank(
                                    e,
                                    p,
                                ) implies gval(board.deep_view(), p) == 0 by {
                                assert(pidx(stack@[stack@.len() - 1]) == 80);
                            }
                            assert forall|p: int|
                                0 <= p < 81 implies (#[trigger] blank(e, p) <==> on_stack(
                                stack@,
                                p,
                            )) by {
                                if blank(e, p) {
                                    if p < 80 {
                                        let k = choose|k: int|
                                            0 <= k < stpre.len() && pidx(#[trigger] stpre[k]) == p;
                                        assert(stack@[k] == stpre[k]);
                                        assert(pidx(stack@[k]) == p);
                                    } else {
                                        assert(pidx(stack@[stack@.len() - 1]) == 80);
                                    }
                                }
                                if on_stack(stack@, p) {
                                    let k = choose|k: int|
                                        0 <= k < stack@.len() && pidx(#[trigger] stack@[k]) == p;
                                }
                            }
                        }
                        return true;
                    }
                    proof {
                        assert forall|p: int|
                            0 <= p < idx + 1 && #[trigger] blank(e, p) implies exists|k: int|
                            0 <= k < stack@.len() && pidx(#[trigger] stack@[k]) == p by {
                            if p == idx {
                                assert(pidx(stack@[stack@.len() - 1]) == p);
                            } else {
                                let k = choose|k: int|
                                    0 <= k < stpre.len() && pidx(#[trigger] stpre[k]) == p;
                                assert(stack@[k] == stpre[k]);
                                assert(pidx(stack@[k]) == p);
                            }
                        }
                    }
                    idx += 1;
                },
                Option::None => {
                    // No digit fits here: clear the cell and backtrack.
                    write_cell(board, row, col, 0);
                    proof {
                        lemma_grid_upd(gpre, idx as int, 0);
                        lemma_grid_write_consistent(gpre, idx as int, 0);
                    }
                    match stack.pop() {
                        Option::Some(rc) => {
                            proof {
                                assert(stack@ == stpre.drop_last());
                                assert(rc == stpre[len - 1]);
                                lemma_backtrack_measure(stpre, gpre, e, idx as int);
                                lemma_blanks_beyond_top(stpre, board.deep_view(), e, idx as int);
                                let idxn = pidx(stpre[len - 1]);
                                lemma_pop_stack_id(e, stpre, idx as int);
                                assert(stack@ == blanks_stack(e, idxn));
                                // no completion below the entry point is
                                // skipped by abandoning this cell
                                lemma_backtrack_no_skip_all(
                                    g0,
                                    gpre,
                                    e,
                                    stpre,
                                    idx as int,
                                    call_measure(st0, g0, e),
                                );
                                assert forall|p2: int|
                                    0 <= p2 < pidx(stpre[len - 1]) && #[trigger] blank(
                                        e,
                                        p2,
                                    ) implies exists|k: int|
                                    0 <= k < stack@.len() && pidx(#[trigger] stack@[k]) == p2 by {
                                    let k = choose|k: int|
                                        0 <= k < stpre.len() && pidx(#[trigger] stpre[k]) == p2;
                                    assert(k != len - 1);
                                    assert(stack@[k] == stpre[k]);
                                    assert(pidx(stack@[k]) == p2);
                                }
                            }
                            idx = rc.0 * 9 + rc.1;
                        },
                        Option::None => {
                            // Nowhere left to backtrack: every tentative
                            // digit has been cleared again, and no
                            // completion was ever skipped.
                            proof {
                                lemma_backtrack_no_skip_all(
                                    g0,
                                    gpre,
                                    e,
                                    stpre,
                                    idx as int,
                                    call_measure(st0, g0, e),
                                );
                                assert forall|p: int|
                                    0 <= p < 81 && #[trigger] blank(e, p) implies gval(
                                    board.deep_view(),
                                    p,
                                ) == 0 by {
                                    if p < idx {
                                        assert(exists|k: int|
                                            0 <= k < stpre.len() && pidx(#[trigger] stpre[k])
                                                == p);
                                        assert(false);
                                    }
                                }
                            }
                            return false;
                        },
                    }
                },
            }
        } else {
            // A cell fixed by the puzzle; the last one means the scan is
            // complete.
            if row == 8 && col == 8 {
                proof {
                    assert(grid_complete(gpre)) by {
                        assert forall|i: int| 0 <= i < 81 implies #[trigger] gval(gpre, i)
                            != 0 by {
                            if i < 80 {
                                if blank(e, i) {
                                    let k = choose|k: int|
                                        0 <= k < stpre.len() && pidx(#[trigger] stpre[k]) == i;
                                    assert(gval(gpre, pidx(stpre[k])) != 0);
                                }
                            }
                        }
                    }
                    assert(stack_ok(stack@, gpre, e)) by {
                        if stpre.len() > 0 {
                            assert forall|p: int|
                                0 <= p < pidx(stpre[len - 1]) && #[trigger] blank(
                                    e,
                                    p,
                                ) implies exists|k: int|
                                0 <= k < len - 1 && pidx(#[trigger] stpre[k]) == p by {
                                let k = choose|k: int|
                                    0 <= k < stpre.len() && pidx(#[trigger] stpre[k]) == p;
                                assert(k != len - 1);
                            }
                        }
                    }
                    lemma_fixed_success_measure(stpre, gpre, e, idx as int);
                    if stpre.len() > 0 {
                        lemma_blanks_beyond_top(stpre, board.deep_view(), e, idx as int);
                    }
                    lemma_fixed_success_no_skip_all(g0, gpre, e, stpre, call_measure(st0, g0, e));
                    if stpre.len() == 0 {
                        lemma_pow_positive(10, (82 - stpre.len()) as nat);
                    }
                    assert forall|p: int|
                        0 <= p < 81 implies (#[trigger] blank(e, p) <==> on_stack(stack@, p)) by {
                        if on_stack(stack@, p) {
                            let k = choose|k: int|
                                0 <= k < stack@.len() && pidx(#[trigger] stack@[k]) == p;
                        }
                        if blank(e, p) {
                            assert(p < 80);
                            let k = choose|k: int|
                                0 <= k < stack@.len() && pidx(#[trigger] stack@[k]) == p;
                        }
                    }
                }
                return true;
            }
            proof {
                lemma_skip_measure(stpre, gpre, e, idx as int);
                lemma_bs_fixed_step(e, idx as int);
                assert(blanks_stack(e, idx as int + 1) == stpre);
                assert(wval(gpre, e, idx as int) == 0);
                assert(wval(gpre, e, idx as int + 1) == 0) by {
                    if blank(e, idx as int + 1) {
                        assert(gval(gpre, idx as int + 1) == 0);
                    }
                }
                assert(scan_measure(stpre, gpre, e, idx as int + 1) == scan_measure(
                    stpre,
                    gpre,
                    e,
                    idx as int,
                ));
            }
            idx += 1;
        }
    }
}

/// Two stacks of in-bounds entries at strictly increasing positions that
/// cover the same positions are the same stack.
proof fn lemma_sorted_stack_unique(s1: Seq<(usize, usize)>, s2: Seq<(usize, usize)>)
    requires
        forall|k: int| 0 <= k < s1.len() ==> (#[trigger] s1[k]).0 < 9 && s1[k].1 < 9,
        forall|k: int| 0 <= k < s2.len() ==> (#[trigger] s2[k]).0 < 9 && s2[k].1 < 9,
        forall|k1: int, k2: int|
            #![trigger s1[k1], s1[k2]]
            0 <= k1 < k2 < s1.len() ==> pidx(s1[k1]) < pidx(s1[k2]),
        forall|k1: int, k2: int|
            #![trigger s2[k1], s2[k2]]
            0 <= k1 < k2 < s2.len() ==> pidx(s2[k1]) < pidx(s2[k2]),
        forall|p: int| #[trigger] on_stack(s1, p) <==> on_stack(s2, p),
    ensures
        s1 == s2,
    decreases s1.len(),
{
    if s1.len() == 0 {
        if s2.len() > 0 {
            let p = pidx(s2[s2.len() - 1]);
            assert(on_stack(s2, p));
            assert(!on_stack(s1, p));
            assert(false);
        }
        assert(s1 =~= s2);
    } else {
        let p1 = pidx(s1[s1.len() - 1]);
        assert(on_stack(s1, p1));
        assert(on_stack(s2, p1));
        assert(s2.len() > 0);
        let p2 = pidx(s2[s2.len() - 1]);
        assert(on_stack(s2, p2));
        assert(on_stack(s1, p2));
        // the two last entries sit at each other's position or later
        let k2 = choose|k: int| 0 <= k < s2.len() && pidx(#[trigger] s2[k]) == p1;
        assert(p1 <= p2);
        let k1 = choose|k: int| 0 <= k < s1.len() && pidx(#[trigger] s1[k]) == p2;
        assert(p2 <= p1);
        assert(s1[s1.len() - 1] == s2[s2.len() - 1]) by {
            let a = s1[s1.len() - 1];
            let b = s2[s2.len() - 1];
            assert(a.0 * 9 + a.1 == b.0 * 9 + b.1);
            assert(a.0 == b.0 && a.1 == b.1) by (nonlinear_arith)
                requires
                    a.0 * 9 + a.1 == b.0 * 9 + b.1,
                    a.1 < 9,
                    b.1 < 9,
            ;
        }
        let d1 = s1.drop_last();
        let d2 = s2.drop_last();
        assert forall|p: int| #[trigger] on_stack(d1, p) <==> on_stack(d2, p) by {
            if on_stack(d1, p) {
                let k = choose|k: int| 0 <= k < d1.len() && pidx(#[trigger] d1[k]) == p;
                assert(d1[k] == s1[k]);
                assert(p < p1);
                assert(on_stack(s1, p));
                assert(on_stack(s2, p));
                let j = choose|k: int| 0 <= k < s2.len() && pidx(#[trigger] s2[k]) == p;
                assert(j != s2.len() - 1);
                assert(d2[j] == s2[j]);
                assert(pidx(d2[j]) == p);
                assert(on_stack(d2, p));
            }
            if on_stack(d2, p) {
                let k = choose|k: int| 0 <= k < d2.len() && pidx(#[trigger] d2[k]) == p;
                assert(d2[k] == s2[k]);
                assert(p < p2);
                assert(on_stack(s2, p));
                assert(on_stack(s1, p));
                let j = choose|k: int| 0 <= k < s1.len() && pidx(#[trigger] s1[k]) == p;
                assert(j != s1.len() - 1);
                assert(d1[j] == s1[j]);
                assert(pidx(d1[j]) == p);
                assert(on_stack(d1, p));
            }
        }
        lemma_sorted_stack_unique(d1, d2);
        assert(s1.len() == s2.len());
        assert forall|k: int| 0 <= k < s1.len() implies s1[k] == s2[k] by {
            if k < s1.len() - 1 {
                assert(d1[k] == s1[k]);
                assert(d2[k] == s2[k]);
            }
        }
        assert(s1 =~= s2);
    }
}

/// The blank cells with index below `n`, in row-major order: the stack the
/// solver holds whenever its scan stands at cell `n`.
#[verifier::opaque]
pub open spec fn blanks_stack(e: Seq<Seq<bool>>, n: int) -> Seq<(usize, usize)>
    decreases n,
{
    if n <= 0 {
        Seq::empty()
    } else if blank(e, n - 1) {
        blanks_stack(e, n - 1).push((((n - 1) / 9) as usize, ((n - 1) % 9) as usize))
    } else {
        blanks_stack(e, n - 1)
    }
}

/// A full grid that completes the puzzle behind the mask: complete,
/// consistent, and equal to `g` on every cell the puzzle fixed.
pub open spec fn sol_mask(t: Seq<Seq<u32>>, g: Seq<Seq<u32>>, e: Seq<Seq<bool>>) -> bool {
    &&& grid_wf(t)
    &&& grid_complete(t)
    &&& grid_consistent(t)
    &&& forall|i: int| 0 <= i < 81 && !blank(e, i) ==> #[trigger] gval(t, i) == gval(g, i)
}

/// Where a full grid stands in the enumeration order: its measure over the
/// whole blank-cell stack.  The solver emits grids in strictly decreasing
/// `enc` order, one per call.
pub open spec fn enc(t: Seq<Seq<u32>>, e: Seq<Seq<bool>>) -> int {
    stack_measure(blanks_stack(e, 81), t)
}

/// Shape of the blank-cell stack: in-bounds entries at strictly increasing
/// positions, one per blank cell below `n`.
proof fn lemma_blanks_stack_props(e: Seq<Seq<bool>>, n: int)
    requires
        0 <= n <= 81,
    ensures
        blanks_stack(e, n).len() <= n,
        forall|k: int|
            0 <= k < blanks_stack(e, n).len() ==> (#[trigger] blanks_stack(e, n)[k]).0 < 9
                && blanks_stack(e, n)[k].1 < 9,
        forall|k: int|
            0 <= k < blanks_stack(e, n).len() ==> 0 <= pidx(#[trigger] blanks_stack(e, n)[k]) < n
                && blank(e, pidx(blanks_stack(e, n)[k])),
        forall|k1: int, k2: int|
            #![trigger blanks_stack(e, n)[k1], blanks_stack(e, n)[k2]]
            0 <= k1 < k2 < blanks_stack(e, n).len() ==> pidx(blanks_stack(e, n)[k1]) < pidx(
                blanks_stack(e, n)[k2],
            ),
        forall|p: int| 0 <= p < n && #[trigger] blank(e, p) ==> on_stack(blanks_stack(e, n), p),
    decreases n,
{
    reveal_with_fuel(blanks_stack, 2);
    let bs = blanks_stack(e, n);
    if n > 0 {
        lemma_blanks_stack_props(e, n - 1);
        let prev = blanks_stack(e, n - 1);
        if blank(e, n - 1) {
            assert(pidx(bs[bs.len() - 1]) == n - 1);
            assert forall|p: int|
                0 <= p < n && #[trigger] blank(e, p) implies on_stack(bs, p) by {
                if p < n - 1 {
                    let k = choose|k: int| 0 <= k < prev.len() && pidx(#[trigger] prev[k]) == p;
                    assert(bs[k] == prev[k]);
                    assert(pidx(bs[k]) == p);
                } else {
                    assert(pidx(bs[bs.len() - 1]) == p);
                }
            }
        }
    }
}

/// The blank-cell stack does not change across a blank-free stretch.
proof fn lemma_blanks_stack_flat(e: Seq<Seq<bool>>, a: int, b: int)
    requires
        0 <= a <= b,
        forall|p: int| a <= p < b ==> !(#[trigger] blank(e, p)),
    ensures
        blanks_stack(e, b) == blanks_stack(e, a),
    decreases b - a,
{
    reveal_with_fuel(blanks_stack, 2);
    if b > a {
        lemma_blanks_stack_flat(e, a, b - 1);
    }
}

/// Splitting the enumeration measure at scan position `n`: the part below
/// `n` is a lower bound, and everything at or beyond `n` weighs less than
/// one more step of the weight at depth `len`.
proof fn lemma_enc_split(t: Seq<Seq<u32>>, e: Seq<Seq<bool>>, n: int)
    requires
        0 <= n <= 81,
        grid_wf(t),
        grid_complete(t),
    ensures
        stack_measure(blanks_stack(e, n), t) <= enc(t, e),
        enc(t, e) < stack_measure(blanks_stack(e, n), t) + pow(
            10,
            (82 - blanks_stack(e, n).len()) as nat,
        ),
    decreases 81 - n,
{
    reveal_with_fuel(blanks_stack, 2);
    lemma_blanks_stack_props(e, n);
    let bs = blanks_stack(e, n);
    let len = bs.len() as int;
    lemma_pow_positive(10, (82 - len) as nat);
    if n == 81 {
    } else {
        lemma_enc_split(t, e, n + 1);
        let bs1 = blanks_stack(e, n + 1);
        if blank(e, n) {
            assert(bs1 == bs.push((((n) / 9) as usize, ((n) % 9) as usize)));
            assert(bs1.drop_last() =~= bs);
            let d = gval(t, n);
            assert(pidx(bs1[bs1.len() - 1]) == n);
            assert(1 <= d <= 9);
            let p1 = pow(10, (82 - len - 1) as nat);
            lemma_p10((81 - len) as nat);
            assert(stack_measure(bs1, t) == stack_measure(bs, t) + (10 - d) * p1);
            assert((10 - d) * p1 >= p1 && (10 - d) * p1 + p1 <= 10 * p1) by (nonlinear_arith)
                requires
                    1 <= d <= 9,
                    p1 > 0,
            ;
            assert(pow(10, (82 - len) as nat) == 10 * p1);
        } else {
            assert(bs1 == bs);
        }
    }
}

/// Two grids that first differ at stack entry `kstar`, where `t` holds the
/// larger digit, sit a whole weight step apart in the measure.
proof fn lemma_sm_disagree(st: Seq<(usize, usize)>, t: Seq<Seq<u32>>, g: Seq<Seq<u32>>, kstar: int)
    requires
        0 <= kstar < st.len() <= 81,
        forall|k: int| 0 <= k < st.len() ==> 1 <= gval(t, pidx(#[trigger] st[k])) <= 9,
        forall|k: int| 0 <= k < st.len() ==> 1 <= gval(g, pidx(#[trigger] st[k])) <= 9,
        forall|k: int|
            0 <= k < kstar ==> gval(t, pidx(#[trigger] st[k])) == gval(g, pidx(st[k])),
        gval(t, pidx(st[kstar])) > gval(g, pidx(st[kstar])),
    ensures
        stack_measure(st, t) + pow(10, (82 - st.len()) as nat) <= stack_measure(st, g),
    decreases st.len(),
{
    let len = st.len() as int;
    let p = pow(10, (82 - len) as nat);
    lemma_pow_positive(10, (82 - len) as nat);
    let dt = gval(t, pidx(st[len - 1]));
    let dg = gval(g, pidx(st[len - 1]));
    if kstar == len - 1 {
        lemma_stack_measure_same(st.drop_last(), t, g);
        assert((10 - dt) * p + p <= (10 - dg) * p) by (nonlinear_arith)
            requires
                dt >= dg + 1,
                p > 0,
        ;
    } else {
        lemma_sm_disagree(st.drop_last(), t, g, kstar);
        lemma_p10((82 - len) as nat);
        assert(pow(10, (83 - len) as nat) == 10 * p);
        assert((10 - dt) * p <= 9 * p && (10 - dg) * p >= p) by (nonlinear_arith)
            requires
                1 <= dt <= 9,
                1 <= dg <= 9,
                p > 0,
        ;
    }
}

/// The least stack entry where two grids disagree, given that they disagree
/// somewhere.
proof fn lemma_least_disagree(
    st: Seq<(usize, usize)>,
    t: Seq<Seq<u32>>,
    g: Seq<Seq<u32>>,
    k0: int,
) -> (k: int)
    requires
        0 <= k0 < st.len(),
        gval(t, pidx(st[k0])) != gval(g, pidx(st[k0])),
    ensures
        0 <= k <= k0,
        gval(t, pidx(st[k])) != gval(g, pidx(st[k])),
        forall|k2: int| 0 <= k2 < k ==> gval(t, pidx(#[trigger] st[k2])) == gval(g, pidx(st[k2])),
    decreases k0,
{
    if exists|k2: int| 0 <= k2 < k0 && gval(t, pidx(#[trigger] st[k2])) != gval(g, pidx(st[k2])) {
        let k2 = choose|k2: int|
            0 <= k2 < k0 && gval(t, pidx(#[trigger] st[k2])) != gval(g, pidx(st[k2]));
        lemma_least_disagree(st, t, g, k2)
    } else {
        k0
    }
}

/// A completion that agrees with the grid on the fixed cells and on every
/// tentative digit below the scan cell can place its own digit at the scan
/// cell: nothing in the row, column, or box conflicts with it.
proof fn lemma_sol_digit_free(
    t: Seq<Seq<u32>>,
    g: Seq<Seq<u32>>,
    e: Seq<Seq<bool>>,
    st: Seq<(usize, usize)>,
    idx: int,
)
    requires
        0 <= idx < 81,
        sol_mask(t, g, e),
        st == blanks_stack(e, idx),
        forall|k: int|
            0 <= k < st.len() ==> gval(t, pidx(#[trigger] st[k])) == gval(g, pidx(st[k])),
        forall|p: int| idx < p < 81 && #[trigger] blank(e, p) ==> gval(g, p) == 0,
        blank(e, idx),
        gval(g, idx) != gval(t, idx),
    ensures
        digit_free(g, idx, gval(t, idx)),
{
    lemma_blanks_stack_props(e, idx);
    let d = gval(t, idx);
    assert(1 <= d <= 9);
    assert forall|j: int| 0 <= j < 81 && #[trigger] shares_unit(idx, j) implies gval(g, j)
        != d by {
        if j != idx {
            assert(gval(t, j) != gval(t, idx));
            if !blank(e, j) {
                assert(gval(g, j) == gval(t, j));
            } else if j < idx {
                assert(on_stack(st, j));
                let k = choose|k: int| 0 <= k < st.len() && pidx(#[trigger] st[k]) == j;
                assert(gval(g, j) == gval(t, j));
            } else {
                assert(gval(g, j) == 0);
            }
        }
    }
}

/// Placing the least fitting digit `d` at the blank scan cell skips no
/// completion: one that survives the current measure bound either already
/// disagrees with an earlier tentative digit (and stays below the new
/// stack's measure), or places at least `d` here; at the last cell it is
/// the very grid just completed unless strictly below its measure.
#[verifier::rlimit(100)]
proof fn lemma_place_no_skip(
    t: Seq<Seq<u32>>,
    g: Seq<Seq<u32>>,
    e: Seq<Seq<bool>>,
    st: Seq<(usize, usize)>,
    idx: int,
    d: u32,
)
    requires
        0 <= idx < 81,
        blank(e, idx),
        grid_wf(g),
        st == blanks_stack(e, idx),
        st.len() <= 80,
        forall|k: int| 0 <= k < st.len() ==> gval(g, pidx(#[trigger] st[k])) != 0,
        forall|p: int| idx < p < 81 && #[trigger] blank(e, p) ==> gval(g, p) == 0,
        sol_mask(t, g, e),
        gval(g, idx) < d <= 9,
        forall|ee: u32| gval(g, idx) < ee < d ==> !(#[trigger] digit_free(g, idx, ee)),
        enc(t, e) < scan_measure(st, g, e, idx),
    ensures
        ({
            let g1 = grid_upd(g, idx, d);
            let st1 = st.push(((idx / 9) as usize, (idx % 9) as usize));
            &&& idx < 80 ==> enc(t, e) < scan_measure(st1, g1, e, idx + 1)
            &&& idx == 80 ==> enc(t, e) < stack_measure(st1, g1) || t == g1
        }),
{
    reveal_with_fuel(blanks_stack, 2);
    let g1 = grid_upd(g, idx, d);
    let st1 = st.push(((idx / 9) as usize, (idx % 9) as usize));
    let v = gval(g, idx);
    let len = st.len() as int;
    let pl = pow(10, (81 - len) as nat);
    let ps = pow(10, (80 - len) as nat);
    lemma_p10((80 - len) as nat);
    lemma_p10((81 - len) as nat);
    lemma_blanks_stack_props(e, idx);
    lemma_grid_upd(g, idx, d);
    assert(st1 =~= blanks_stack(e, idx + 1));
    assert(st1.drop_last() =~= st);
    lemma_stack_measure_same(st, g, g1);
    assert(pidx(st1[st1.len() - 1]) == idx);
    assert(gval(g1, idx) == d);
    assert(stack_measure(st1, g1) == stack_measure(st, g) + (10 - d) * pl);
    lemma_enc_split(t, e, idx);
    lemma_enc_split(t, e, idx + 1);
    assert(stack_measure(st1, t) == stack_measure(st, t) + (10 - gval(t, idx)) * pl) by {
        assert(st1.drop_last() =~= st);
    }
    if idx < 80 {
        assert(wval(g1, e, idx + 1) == 0) by {
            if blank(e, idx + 1) {
                assert(gval(g1, idx + 1) == gval(g, idx + 1));
            }
        }
        assert(scan_measure(st1, g1, e, idx + 1) == stack_measure(st, g) + (10 - d) * pl + 10
            * ps);
    }
    assert forall|k: int|
        0 <= k < st.len() implies 1 <= gval(t, pidx(#[trigger] st[k])) <= 9 && 1 <= gval(
        g,
        pidx(st[k]),
    ) <= 9 by {
        assert(gval(g, pidx(st[k])) != 0);
    }
    if exists|k: int|
        0 <= k < st.len() && gval(t, pidx(#[trigger] st[k])) != gval(g, pidx(st[k])) {
        let k0 = choose|k: int|
            0 <= k < st.len() && gval(t, pidx(#[trigger] st[k])) != gval(g, pidx(st[k]));
        let ks = lemma_least_disagree(st, t, g, k0);
        if gval(t, pidx(st[ks])) > gval(g, pidx(st[ks])) {
            lemma_sm_disagree(st, t, g, ks);
            assert((10 - d) * pl >= pl && 10 * ps == pl) by (nonlinear_arith)
                requires
                    1 <= d <= 9,
                    pl > 0,
                    ps > 0,
                    pl == 10 * ps,
            ;
        } else {
            lemma_sm_disagree(st, g, t, ks);
            assert((10 - v) * pl <= 10 * pl) by (nonlinear_arith)
                requires
                    v >= 0,
                    pl > 0,
            ;
            assert(false);
        }
    } else {
        lemma_stack_measure_same(st, t, g);
        let ti = gval(t, idx);
        assert(1 <= ti <= 9);
        if v < ti && ti < d {
            lemma_sol_digit_free(t, g, e, st, idx);
            assert(false);
        }
        if ti <= v {
            assert((10 - ti) * pl >= (10 - v) * pl) by (nonlinear_arith)
                requires
                    ti <= v,
                    pl > 0,
            ;
            assert(false);
        }
        assert(ti >= d);
        if ti > d {
            assert((10 - ti) * pl + pl <= (10 - d) * pl) by (nonlinear_arith)
                requires
                    ti >= d + 1,
                    pl > 0,
            ;
        } else if idx == 80 {
            // the completion is exactly the grid just finished
            assert(enc(t, e) == stack_measure(st1, t)) by {
                assert(blanks_stack(e, 81) =~= st1);
            }
            assert forall|ii: int| 0 <= ii < 81 implies #[trigger] gval(t, ii) == gval(
                g1,
                ii,
            ) by {
                if blank(e, ii) && ii < idx {
                    assert(on_stack(st, ii));
                    let k = choose|k: int| 0 <= k < st.len() && pidx(#[trigger] st[k]) == ii;
                } else if !blank(e, ii) {
                    assert(gval(t, ii) == gval(g, ii));
                }
            }
            assert forall|rr: int| 0 <= rr < 9 implies t[rr] =~= g1[rr] by {
                assert forall|cc: int| 0 <= cc < 9 implies t[rr][cc] == g1[rr][cc] by {
                    assert(gval(t, rr * 9 + cc) == gval(g1, rr * 9 + cc));
                }
            }
            assert(t =~~= g1);
        }
    }
}

/// When no digit above the current one fits at the blank scan cell, every
/// completion that survives the measure bound disagrees with an earlier
/// tentative digit, so it stays below the stack's own measure; with an
/// empty stack no such completion exists at all.
#[verifier::rlimit(100)]
proof fn lemma_backtrack_no_skip(
    t: Seq<Seq<u32>>,
    g: Seq<Seq<u32>>,
    e: Seq<Seq<bool>>,
    st: Seq<(usize, usize)>,
    idx: int,
)
    requires
        0 <= idx < 81,
        blank(e, idx),
        grid_wf(g),
        st == blanks_stack(e, idx),
        st.len() <= 80,
        forall|k: int| 0 <= k < st.len() ==> gval(g, pidx(#[trigger] st[k])) != 0,
        forall|p: int| idx < p < 81 && #[trigger] blank(e, p) ==> gval(g, p) == 0,
        sol_mask(t, g, e),
        forall|ee: u32| gval(g, idx) < ee <= 9 ==> !(#[trigger] digit_free(g, idx, ee)),
        enc(t, e) < scan_measure(st, g, e, idx),
    ensures
        st.len() > 0 ==> enc(t, e) < stack_measure(st, g),
        st.len() == 0 ==> false,
{
    reveal_with_fuel(blanks_stack, 2);
    let v = gval(g, idx);
    let len = st.len() as int;
    let pl = pow(10, (81 - len) as nat);
    lemma_p10((81 - len) as nat);
    lemma_blanks_stack_props(e, idx);
    lemma_enc_split(t, e, idx);
    lemma_enc_split(t, e, idx + 1);
    let st1 = blanks_stack(e, idx + 1);
    assert(st1 =~= st.push(((idx / 9) as usize, (idx % 9) as usize)));
    assert(pidx(st1[st1.len() - 1]) == idx);
    assert(stack_measure(st1, t) == stack_measure(st, t) + (10 - gval(t, idx)) * pl) by {
        assert(st1.drop_last() =~= st);
    }
    assert forall|k: int|
        0 <= k < st.len() implies 1 <= gval(t, pidx(#[trigger] st[k])) <= 9 && 1 <= gval(
        g,
        pidx(st[k]),
    ) <= 9 by {
        assert(gval(g, pidx(st[k])) != 0);
    }
    if exists|k: int|
        0 <= k < st.len() && gval(t, pidx(#[trigger] st[k])) != gval(g, pidx(st[k])) {
        let k0 = choose|k: int|
            0 <= k < st.len() && gval(t, pidx(#[trigger] st[k])) != gval(g, pidx(st[k]));
        let ks = lemma_least_disagree(st, t, g, k0);
        if gval(t, pidx(st[ks])) > gval(g, pidx(st[ks])) {
            lemma_sm_disagree(st, t, g, ks);
            lemma_pow_positive(10, (82 - len) as nat);
        } else {
            lemma_sm_disagree(st, g, t, ks);
            assert((10 - v) * pl <= 10 * pl) by (nonlinear_arith)
                requires
                    v >= 0,
                    pl > 0,
            ;
            assert(false);
        }
    } else {
        lemma_stack_measure_same(st, t, g);
        let ti = gval(t, idx);
        assert(1 <= ti <= 9);
        if ti > v {
            lemma_sol_digit_free(t, g, e, st, idx);
            assert(false);
        }
        assert((10 - ti) * pl >= (10 - v) * pl) by (nonlinear_arith)
            requires
                ti <= v,
                pl > 0,
        ;
        assert(false);
    }
}

/// A fixed final scan cell: every completion that survives the measure
/// bound is the current grid itself, or already sits below the stack's own
/// measure.
#[verifier::rlimit(100)]
proof fn lemma_fixed_success_no_skip(
    t: Seq<Seq<u32>>,
    g: Seq<Seq<u32>>,
    e: Seq<Seq<bool>>,
    st: Seq<(usize, usize)>,
)
    requires
        !blank(e, 80),
        grid_wf(g),
        st == blanks_stack(e, 80),
        st.len() <= 80,
        forall|k: int| 0 <= k < st.len() ==> gval(g, pidx(#[trigger] st[k])) != 0,
        sol_mask(t, g, e),
        enc(t, e) < scan_measure(st, g, e, 80),
    ensures
        enc(t, e) < stack_measure(st, g) || t == g,
{
    reveal_with_fuel(blanks_stack, 2);
    let len = st.len() as int;
    let pl = pow(10, (81 - len) as nat);
    lemma_p10((81 - len) as nat);
    lemma_blanks_stack_props(e, 80);
    assert(blanks_stack(e, 81) == st);
    assert(enc(t, e) == stack_measure(st, t));
    assert forall|k: int|
        0 <= k < st.len() implies 1 <= gval(t, pidx(#[trigger] st[k])) <= 9 && 1 <= gval(
        g,
        pidx(st[k]),
    ) <= 9 by {
        assert(gval(g, pidx(st[k])) != 0);
    }
    if exists|k: int|
        0 <= k < st.len() && gval(t, pidx(#[trigger] st[k])) != gval(g, pidx(st[k])) {
        let k0 = choose|k: int|
            0 <= k < st.len() && gval(t, pidx(#[trigger] st[k])) != gval(g, pidx(st[k]));
        let ks = lemma_least_disagree(st, t, g, k0);
        if gval(t, pidx(st[ks])) > gval(g, pidx(st[ks])) {
            lemma_sm_disagree(st, t, g, ks);
            lemma_pow_positive(10, (82 - len) as nat);
        } else {
            lemma_sm_disagree(st, g, t, ks);
            assert(false);
        }
    } else {
        // the completion agrees with the grid on every blank, so on every
        // cell
        assert forall|ii: int| 0 <= ii < 81 implies #[trigger] gval(t, ii) == gval(g, ii) by {
            if blank(e, ii) {
                assert(on_stack(st, ii)) by {
                    assert(ii != 80);
                }
                let k = choose|k: int| 0 <= k < st.len() && pidx(#[trigger] st[k]) == ii;
            }
        }
        assert forall|rr: int| 0 <= rr < 9 implies t[rr] =~= g[rr] by {
            assert forall|cc: int| 0 <= cc < 9 implies t[rr][cc] == g[rr][cc] by {
                assert(gval(t, rr * 9 + cc) == gval(g, rr * 9 + cc));
            }
        }
        assert(t =~~= g);
    }
}

/// Popping the top of the blank-cell stack leaves the blank-cell stack of
/// the popped cell's own position.
proof fn lemma_pop_stack_id(e: Seq<Seq<bool>>, st: Seq<(usize, usize)>, idx: int)
    requires
        0 <= idx <= 81,
        st == blanks_stack(e, idx),
        st.len() >= 1,
    ensures
        0 <= pidx(st[st.len() - 1]) < idx,
        blank(e, pidx(st[st.len() - 1])),
        st.drop_last() == blanks_stack(e, pidx(st[st.len() - 1])),
{
    reveal_with_fuel(blanks_stack, 2);
    lemma_blanks_stack_props(e, idx);
    let len = st.len() as int;
    let idxn = pidx(st[len - 1]);
    assert forall|p: int| idxn + 1 <= p < idx implies !(#[trigger] blank(e, p)) by {
        if blank(e, p) {
            assert(on_stack(st, p));
            let k = choose|k: int| 0 <= k < st.len() && pidx(#[trigger] st[k]) == p;
            assert(pidx(st[k]) <= idxn);
        }
    }
    lemma_blanks_stack_flat(e, idxn + 1, idx);
    assert(st[len - 1] == ((idxn / 9) as usize, (idxn % 9) as usize)) by {
        let a = st[len - 1];
        assert(a.0 == idxn / 9 && a.1 == idxn % 9) by (nonlinear_arith)
            requires
                a.0 * 9 + a.1 == idxn,
                a.1 < 9,
        ;
    }
    assert(blanks_stack(e, idxn + 1) == blanks_stack(e, idxn).push(st[len - 1]));
    assert(st.drop_last() =~= blanks_stack(e, idxn));
}

/// Scanning past a cell the puzzle fixed leaves the blank-cell stack alone.
proof fn lemma_bs_fixed_step(e: Seq<Seq<bool>>, idx: int)
    requires
        0 <= idx,
        !blank(e, idx),
    ensures
        blanks_stack(e, idx + 1) == blanks_stack(e, idx),
{
    reveal_with_fuel(blanks_stack, 2);
}

/// `lemma_place_no_skip` lifted over every completion at once, phrased
/// against a fixed reference grid for the clue cells.
proof fn lemma_place_no_skip_all(
    g0: Seq<Seq<u32>>,
    g: Seq<Seq<u32>>,
    e: Seq<Seq<bool>>,
    st: Seq<(usize, usize)>,
    idx: int,
    d: u32,
    c0: int,
)
    requires
        0 <= idx < 81,
        blank(e, idx),
        grid_wf(g),
        st == blanks_stack(e, idx),
        st.len() <= 80,
        forall|k: int| 0 <= k < st.len() ==> gval(g, pidx(#[trigger] st[k])) != 0,
        forall|p: int| idx < p < 81 && #[trigger] blank(e, p) ==> gval(g, p) == 0,
        forall|ii: int| 0 <= ii < 81 && !blank(e, ii) ==> #[trigger] gval(g, ii) == gval(g0, ii),
        gval(g, idx) < d <= 9,
        forall|ee: u32| gval(g, idx) < ee < d ==> !(#[trigger] digit_free(g, idx, ee)),
        forall|t: Seq<Seq<u32>>|
            sol_mask(t, g0, e) && #[trigger] enc(t, e) < c0 ==> enc(t, e) < scan_measure(
                st,
                g,
                e,
                idx,
            ),
    ensures
        st.push(((idx / 9) as usize, (idx % 9) as usize)) == blanks_stack(e, idx + 1),
        forall|t: Seq<Seq<u32>>|
            sol_mask(t, g0, e) && #[trigger] enc(t, e) < c0 ==> (idx < 80 ==> enc(t, e)
                < scan_measure(
                st.push(((idx / 9) as usize, (idx % 9) as usize)),
                grid_upd(g, idx, d),
                e,
                idx + 1,
            )) && (idx == 80 ==> enc(t, e) < stack_measure(
                st.push(((idx / 9) as usize, (idx % 9) as usize)),
                grid_upd(g, idx, d),
            ) || t == grid_upd(g, idx, d)),
{
    reveal_with_fuel(blanks_stack, 2);
    assert(st.push(((idx / 9) as usize, (idx % 9) as usize)) =~= blanks_stack(e, idx + 1));
    assert forall|t: Seq<Seq<u32>>|
        sol_mask(t, g0, e) && #[trigger] enc(t, e) < c0 implies (idx < 80 ==> enc(t, e)
        < scan_measure(
        st.push(((idx / 9) as usize, (idx % 9) as usize)),
        grid_upd(g, idx, d),
        e,
        idx + 1,
    )) && (idx == 80 ==> enc(t, e) < stack_measure(
        st.push(((idx / 9) as usize, (idx % 9) as usize)),
        grid_upd(g, idx, d),
    ) || t == grid_upd(g, idx, d)) by {
        assert(sol_mask(t, g, e));
        lemma_place_no_skip(t, g, e, st, idx, d);
    }
}

/// `lemma_backtrack_no_skip` lifted over every completion at once.
proof fn lemma_backtrack_no_skip_all(
    g0: Seq<Seq<u32>>,
    g: Seq<Seq<u32>>,
    e: Seq<Seq<bool>>,
    st: Seq<(usize, usize)>,
    idx: int,
    c0: int,
)
    requires
        0 <= idx < 81,
        blank(e, idx),
        grid_wf(g),
        st == blanks_stack(e, idx),
        st.len() <= 80,
        forall|k: int| 0 <= k < st.len() ==> gval(g, pidx(#[trigger] st[k])) != 0,
        forall|p: int| idx < p < 81 && #[trigger] blank(e, p) ==> gval(g, p) == 0,
        forall|ii: int| 0 <= ii < 81 && !blank(e, ii) ==> #[trigger] gval(g, ii) == gval(g0, ii),
        forall|ee: u32| gval(g, idx) < ee <= 9 ==> !(#[trigger] digit_free(g, idx, ee)),
        forall|t: Seq<Seq<u32>>|
            sol_mask(t, g0, e) && #[trigger] enc(t, e) < c0 ==> enc(t, e) < scan_measure(
                st,
                g,
                e,
                idx,
            ),
    ensures
        forall|t: Seq<Seq<u32>>|
            sol_mask(t, g0, e) && #[trigger] enc(t, e) < c0 ==> st.len() > 0 && enc(t, e)
                < stack_measure(st, g),
{
    assert forall|t: Seq<Seq<u32>>|
        sol_mask(t, g0, e) && #[trigger] enc(t, e) < c0 implies st.len() > 0 && enc(t, e)
        < stack_measure(st, g) by {
        assert(sol_mask(t, g, e));
        lemma_backtrack_no_skip(t, g, e, st, idx);
    }
}

/// `lemma_fixed_success_no_skip` lifted over every completion at once.
proof fn lemma_fixed_success_no_skip_all(
    g0: Seq<Seq<u32>>,
    g: Seq<Seq<u32>>,
    e: Seq<Seq<bool>>,
    st: Seq<(usize, usize)>,
    c0: int,
)
    requires
        !blank(e, 80),
        grid_wf(g),
        st == blanks_stack(e, 80),
        st.len() <= 80,
        forall|k: int| 0 <= k < st.len() ==> gval(g, pidx(#[trigger] st[k])) != 0,
        forall|ii: int| 0 <= ii < 81 && !blank(e, ii) ==> #[trigger] gval(g, ii) == gval(g0, ii),
        forall|t: Seq<Seq<u32>>|
            sol_mask(t, g0, e) && #[trigger] enc(t, e) < c0 ==> enc(t, e) < scan_measure(
                st,
                g,
                e,
                80,
            ),
    ensures
        forall|t: Seq<Seq<u32>>|
            sol_mask(t, g0, e) && #[trigger] enc(t, e) < c0 ==> enc(t, e) < stack_measure(st, g)
                || t == g,
{
    assert forall|t: Seq<Seq<u32>>|
        sol_mask(t, g0, e) && #[trigger] enc(t, e) < c0 implies enc(t, e) < stack_measure(st, g)
        || t == g by {
        assert(sol_mask(t, g, e));
        lemma_fixed_success_no_skip(t, g, e, st);
    }
}

/// Below the scan cell every blank sits on the stack, so past the top of
/// the stack every blank cell is still unwritten.
proof fn lemma_blanks_beyond_top(
    st: Seq<(usize, usize)>,
    g: Seq<Seq<u32>>,
    e: Seq<Seq<bool>>,
    idx: int,
)
    requires
        1 <= st.len(),
        forall|k1: int, k2: int|
            #![trigger st[k1], st[k2]]
            0 <= k1 < k2 < st.len() ==> pidx(st[k1]) < pidx(st[k2]),
        forall|p: int|
            0 <= p < idx && #[trigger] blank(e, p) ==> exists|k: int|
                0 <= k < st.len() && pidx(#[trigger] st[k]) == p,
        forall|p: int| idx < p < 81 && #[trigger] blank(e, p) ==> gval(g, p) == 0,
        blank(e, idx) ==> gval(g, idx) == 0,
        forall|k: int| 0 <= k < st.len() ==> pidx(#[trigger] st[k]) < idx,
    ensures
        forall|p: int|
            pidx(st[st.len() - 1]) < p < 81 && #[trigger] blank(e, p) ==> gval(g, p) == 0,
{
    assert forall|p: int|
        pidx(st[st.len() - 1]) < p < 81 && #[trigger] blank(e, p) implies gval(g, p) == 0 by {
        if p < idx {
            let k = choose|k: int| 0 <= k < st.len() && pidx(#[trigger] st[k]) == p;
            assert(pidx(st[k]) <= pidx(st[st.len() - 1]));
            assert(false);
        }
    }
}

/// The measure at a call boundary is never negative on a well-formed grid.
proof fn lemma_call_measure_nonneg(st: Seq<(usize, usize)>, g: Seq<Seq<u32>>, e: Seq<Seq<bool>>)
    requires
        st.len() <= 81,
        forall|k: int| 0 <= k < st.len() ==> (#[trigger] st[k]).0 < 9 && st[k].1 < 9,
        grid_wf(g),
    ensures
        call_measure(st, g, e) >= 0,
{
    if st.len() > 0 {
        lemma_stack_measure_nonneg(st.drop_last(), g);
        let w = wval(g, e, pidx(st[st.len() - 1]));
        assert(w <= 9);
        let p = pow(10, (82 - st.len()) as nat);
        lemma_pow_positive(10, (82 - st.len()) as nat);
        assert((10 - w) * p >= 0) by (nonlinear_arith)
            requires
                w <= 9,
                p > 0,
        ;
    }
}

/// Set one entry of the blank-cell mask.
fn set_mask(mask: &mut [[bool; 9]; 9], row: usize, col: usize, v: bool)
    requires
        row < 9,
        col < 9,
    ensures
        blank(final(mask).deep_view(), row as int * 9 + col) == v,
        forall|j: int|
            0 <= j < 81 && j != row as int * 9 + col ==> blank(final(mask).deep_view(), j) == blank(
                old(mask).deep_view(),
                j,
            ),
{
    let mut rowarr = mask[row];
    rowarr[col] = v;
    mask[row] = rowarr;
    proof {
        let i = row as int * 9 + col;
        assert(i / 9 == row && i % 9 == col);
        let e0 = old(mask).deep_view();
        let e1 = mask.deep_view();
        assert(blank(e1, i) == v);
        assert forall|j: int| 0 <= j < 81 && j != i implies blank(e1, j) == blank(e0, j) by {
            if j / 9 == row {
                assert(j % 9 != col);
            }
        }
    }
}

/// Enumerate the completions of the raw grid: mark the blank cells, seed
/// the stack with the first cell, and call `brute_force` until it reports
/// no further solution.  The vector collects every completion of the
/// puzzle, each exactly once.
#[verifier::loop_isolation(false)]
#[verifier::rlimit(100)]
pub fn brute_force_all(board: &mut [[u32; 9]; 9]) -> (sols: Vec<[[u32; 9]; 9]>)
    requires
        grid_wf(old(board).deep_view()),
        grid_consistent(old(board).deep_view()),
    ensures
        forall|k: int|
            0 <= k < sols@.len() ==> {
                let sg = (#[trigger] sols@[k]).deep_view();
                &&& grid_wf(sg)
                &&& grid_complete(sg)
                &&& grid_consistent(sg)
                &&& forall|i: int|
                    0 <= i < 81 && gval(old(board).deep_view(), i) != 0 ==> #[trigger] gval(sg, i)
                        == gval(old(board).deep_view(), i)
            },
        forall|k1: int, k2: int|
            #![trigger sols@[k1], sols@[k2]]
            0 <= k1 < k2 < sols@.len() ==> sols@[k1].deep_view() != sols@[k2].deep_view(),
        forall|t: Seq<Seq<u32>>|
            #![trigger grid_complete(t)]
            grid_wf(t) && grid_complete(t) && grid_consistent(t) && (forall|i: int|
                0 <= i < 81 && gval(old(board).deep_view(), i) != 0 ==> #[trigger] gval(t, i)
                    == gval(old(board).deep_view(), i)) ==> exists|k: int|
                0 <= k < sols@.len() && (#[trigger] sols@[k]).deep_view() == t,
{
    let ghost g0 = board.deep_view();

    // Mark the cells the puzzle leaves blank.
    let mut empty = [[false; 9]; 9];
    let mut k: usize = 0;
    while k < 81
        invariant
            k <= 81,
            board.deep_view() == g0,
            forall|i: int|
                0 <= i < k ==> (blank(empty.deep_view(), i) <==> #[trigger] gval(g0, i) == 0),
        decreases 81 - k,
    {
        let row = k / 9;
        let col = k % 9;
        proof {
            assert(row_of(k as int) == row && col_of(k as int) == col);
        }
        let z = board[row][col] == 0;
        proof {
            assert(z == (gval(g0, k as int) == 0));
        }
        set_mask(&mut empty, row, col, z);
        k += 1;
    }
    let ghost e = empty.deep_view();

    // Seed the resume stack with the first cell.
    let mut stack: Vec<(usize, usize)> = Vec::new();
    stack.push((0usize, 0usize));
    proof {
        assert(stack@.len() == 1);
        assert(stack@[0] == (0usize, 0usize));
        assert(stack_ok(stack@, board.deep_view(), e));
        lemma_call_measure_nonneg(stack@, board.deep_view(), e);
        lemma_p10(81);
        assert(wval(board.deep_view(), e, 0) == 0) by {
            if blank(e, 0) {
                assert(gval(g0, 0) == 0);
            }
        }
        assert(call_measure(stack@, board.deep_view(), e) == 10 * pow(10, 81)) by {
            assert(stack@.drop_last() =~= Seq::<(usize, usize)>::empty());
            assert(pidx(stack@[0]) == 0);
        }
        assert forall|t: Seq<Seq<u32>>|
            sol_mask(t, g0, e) implies #[trigger] enc(t, e) < call_measure(
            stack@,
            board.deep_view(),
            e,
        ) by {
            lemma_blanks_stack_props(e, 0);
            lemma_enc_split(t, e, 0);
            assert(stack_measure(blanks_stack(e, 0), t) == 0);
        }
    }

    let mut sols: Vec<[[u32; 9]; 9]> = Vec::new();
    loop
        invariant
            grid_wf(board.deep_view()),
            grid_consistent(board.deep_view()),
            mask_ok(board.deep_view(), e),
            stack_ok(stack@, board.deep_view(), e),
            forall|i: int|
                0 <= i < 81 && !blank(e, i) ==> #[trigger] gval(board.deep_view(), i) == gval(
                    g0,
                    i,
                ),
            forall|i: int| 0 <= i < 81 ==> (blank(e, i) <==> #[trigger] gval(g0, i) == 0),
            forall|k2: int|
                0 <= k2 < sols@.len() ==> {
                    let sg = (#[trigger] sols@[k2]).deep_view();
                    &&& grid_wf(sg)
                    &&& grid_complete(sg)
                    &&& grid_consistent(sg)
                    &&& forall|i: int|
                        0 <= i < 81 && gval(g0, i) != 0 ==> #[trigger] gval(sg, i) == gval(g0, i)
                },
            sols@.len() > 0 ==> stack_lists_blanks(stack@, e) && sols@[sols@.len()
                - 1].deep_view() == board.deep_view(),
            forall|k1: int, k2: int|
                #![trigger sols@[k1], sols@[k2]]
                0 <= k1 < k2 < sols@.len() ==> stack_measure(stack@, sols@[k1].deep_view())
                    > stack_measure(stack@, sols@[k2].deep_view()),
            forall|t: Seq<Seq<u32>>|
                #![trigger sol_mask(t, g0, e)]
                sol_mask(t, g0, e) ==> (exists|k: int|
                    0 <= k < sols@.len() && (#[trigger] sols@[k]).deep_view() == t) || enc(t, e)
                    < call_measure(stack@, board.deep_view(), e),
        decreases call_measure(stack@, board.deep_view(), e),
    {
        proof {
            lemma_call_measure_nonneg(stack@, board.deep_view(), e);
        }
        let ghost sthead = stack@;
        let ghost ghead = board.deep_view();
        let found = brute_force(board, &empty, &mut stack);
        if found {
            let ghost prev = sols@;
            sols.push(*board);
            proof {
                lemma_call_measure_nonneg(stack@, board.deep_view(), e);
                assert forall|i: int|
                    0 <= i < 81 && gval(g0, i) != 0 implies #[trigger] gval(board.deep_view(), i)
                    == gval(g0, i) by {
                    assert(!blank(e, i));
                }
                if prev.len() > 0 {
                    // the stack after a success always lists exactly the
                    // blank cells, so it is the same stack as before
                    assert forall|p: int| #[trigger] on_stack(sthead, p) <==> on_stack(
                        stack@,
                        p,
                    ) by {
                        if on_stack(sthead, p) {
                            let k = choose|k: int|
                                0 <= k < sthead.len() && pidx(#[trigger] sthead[k]) == p;
                            assert(0 <= p < 81 && blank(e, p));
                        }
                        if on_stack(stack@, p) {
                            let k = choose|k: int|
                                0 <= k < stack@.len() && pidx(#[trigger] stack@[k]) == p;
                            assert(0 <= p < 81 && blank(e, p));
                        }
                    }
                    lemma_sorted_stack_unique(sthead, stack@);
                    // the recorded grids only differ on blank cells, all of
                    // which sit on the stack, so the path measure separates
                    // them; it went strictly down again
                    assert(ghead == prev[prev.len() - 1].deep_view());
                    if sthead.len() > 0 {
                        assert(blank(e, pidx(sthead[sthead.len() - 1]))) by {
                            assert(on_stack(sthead, pidx(sthead[sthead.len() - 1])));
                        }
                        assert(call_measure(sthead, ghead, e) == stack_measure(sthead, ghead));
                    }
                    if stack@.len() > 0 {
                        assert(blank(e, pidx(stack@[stack@.len() - 1]))) by {
                            assert(on_stack(stack@, pidx(stack@[stack@.len() - 1])));
                        }
                        assert(call_measure(stack@, board.deep_view(), e) == stack_measure(
                            stack@,
                            board.deep_view(),
                        ));
                    }
                    assert(stack_measure(stack@, board.deep_view()) < stack_measure(
                        sthead,
                        ghead,
                    ));
                }
                assert forall|t: Seq<Seq<u32>>|
                    sol_mask(t, g0, e) implies (exists|k: int|
                    0 <= k < sols@.len() && (#[trigger] sols@[k]).deep_view() == t) || enc(t, e)
                    < call_measure(stack@, board.deep_view(), e) by {
                    if exists|k: int| 0 <= k < prev.len() && (#[trigger] prev[k]).deep_view()
                        == t {
                        let k = choose|k: int|
                            0 <= k < prev.len() && (#[trigger] prev[k]).deep_view() == t;
                        assert(sols@[k] == prev[k]);
                        assert(sols@[k].deep_view() == t);
                    } else if enc(t, e) < call_measure(sthead, ghead, e) {
                        assert(sol_mask(t, ghead, e)) by {
                            assert forall|ii: int|
                                0 <= ii < 81 && !blank(e, ii) implies #[trigger] gval(t, ii)
                                == gval(ghead, ii) by {
                                assert(gval(ghead, ii) == gval(g0, ii));
                            }
                        }
                        if t == board.deep_view() {
                            assert(sols@[sols@.len() - 1].deep_view() == t);
                        }
                    }
                }
            }
        } else {
            proof {
                assert forall|k1: int, k2: int|
                    #![trigger sols@[k1], sols@[k2]]
                    0 <= k1 < k2 < sols@.len() implies sols@[k1].deep_view()
                    != sols@[k2].deep_view() by {
                    assert(stack_measure(sthead, sols@[k1].deep_view()) > stack_measure(
                        sthead,
                        sols@[k2].deep_view(),
                    ));
                }
                assert forall|t: Seq<Seq<u32>>|
                    #![trigger grid_complete(t)]
                    grid_wf(t) && grid_complete(t) && grid_consistent(t) && (forall|i: int|
                        0 <= i < 81 && gval(g0, i) != 0 ==> #[trigger] gval(t, i) == gval(
                            g0,
                            i,
                        )) implies exists|k: int|
                    0 <= k < sols@.len() && (#[trigger] sols@[k]).deep_view() == t by {
                    assert(sol_mask(t, g0, e)) by {
                        assert forall|ii: int|
                            0 <= ii < 81 && !blank(e, ii) implies #[trigger] gval(t, ii) == gval(
                            g0,
                            ii,
                        ) by {
                            assert(gval(g0, ii) != 0);
                        }
                    }
                    assert(sol_mask(t, ghead, e)) by {
                        assert forall|ii: int|
                            0 <= ii < 81 && !blank(e, ii) implies #[trigger] gval(t, ii) == gval(
                            ghead,
                            ii,
                        ) by {
                            assert(gval(ghead, ii) == gval(g0, ii));
                        }
                    }
                    assert(enc(t, e) >= call_measure(sthead, ghead, e));
                }
            }
            return sols;
        }
    }
}

} // verus!
