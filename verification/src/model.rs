//! Mathematical model of a Sudoku board.
//!
//! A board is modelled as a sequence of 81 `CellModel`s in row-major order.
//! The spec functions here define the grid geometry (rows, columns, 3x3
//! boxes), the board invariants (well-formedness and consistency), and the
//! effect of the one mutation primitive, `spec_set`.

use vstd::prelude::*;

verus! {

/// Model of one cell: its value (0 = unknown) and its candidate digits.
pub ghost struct CellModel {
    pub val: u32,
    pub cands: Set<u32>,
}

/// The candidate set of a fresh, unconstrained cell: every digit 1..=9.
pub open spec fn full_cands() -> Set<u32> {
    Set::new(|d: u32| 1 <= d <= 9)
}

/// A cell with no candidates left.
pub open spec fn cell_no_cands(c: CellModel) -> bool {
    forall|d: u32| !c.cands.contains(d)
}

/// A cell whose only candidate is `d`.
pub open spec fn cell_single(c: CellModel, d: u32) -> bool {
    c.cands.contains(d) && forall|e: u32| c.cands.contains(e) ==> e == d
}

pub open spec fn row_of(i: int) -> int {
    i / 9
}

pub open spec fn col_of(i: int) -> int {
    i % 9
}

/// Cell indices `i` and `j` lie in the same row, column, or 3x3 box.
pub open spec fn shares_unit(i: int, j: int) -> bool {
    ||| row_of(i) == row_of(j)
    ||| col_of(i) == col_of(j)
    ||| (row_of(i) / 3 == row_of(j) / 3 && col_of(i) / 3 == col_of(j) / 3)
}

/// Board well-formedness: 81 cells, values at most 9, a fixed cell has no
/// candidates, and a candidate digit never equals the value of a cell in
/// the same row, column, or box.
pub open spec fn board_wf(b: Seq<CellModel>) -> bool {
    &&& b.len() == 81
    &&& forall|i: int| 0 <= i < 81 ==> (#[trigger] b[i]).val <= 9
    &&& forall|i: int, d: u32|
        0 <= i < 81 && #[trigger] b[i].cands.contains(d) ==> b[i].val == 0 && 1 <= d <= 9
    &&& forall|i: int, j: int, d: u32|
        #![trigger b[i].cands.contains(d), b[j].val]
        0 <= i < 81 && 0 <= j < 81 && j != i && shares_unit(i, j) && b[i].cands.contains(d)
            ==> b[j].val != d
}

/// No two cells of the same row, column, or box hold the same nonzero value.
pub open spec fn board_consistent(b: Seq<CellModel>) -> bool {
    forall|i: int, j: int|
        #![trigger b[i].val, b[j].val]
        0 <= i < 81 && 0 <= j < 81 && i != j && shares_unit(i, j) && b[i].val != 0
            ==> b[i].val != b[j].val
}

/// Every cell holds a nonzero value.
pub open spec fn board_complete(b: Seq<CellModel>) -> bool {
    forall|i: int| 0 <= i < 81 ==> (#[trigger] b[i]).val != 0
}

/// Some unassigned cell has an empty candidate set: no completion of the
/// board exists from here.
pub open spec fn board_exhausted(b: Seq<CellModel>) -> bool {
    exists|i: int| 0 <= i < 81 && (#[trigger] b[i]).val == 0 && cell_no_cands(b[i])
}

/// Every cell fixed in `b1` keeps its value in `b2`.
pub open spec fn board_extends(b1: Seq<CellModel>, b2: Seq<CellModel>) -> bool {
    forall|i: int| 0 <= i < 81 && (#[trigger] b1[i]).val != 0 ==> b2[i].val == b1[i].val
}

/// Extension is transitive.
pub proof fn lemma_extends_trans(a: Seq<CellModel>, b: Seq<CellModel>, c: Seq<CellModel>)
    requires
        board_extends(a, b),
        board_extends(b, c),
    ensures
        board_extends(a, c),
{
}

/// The effect of assigning `val` at (`r`,`c`): the target takes the value
/// and (if nonzero) loses its candidates, and every cell sharing the
/// target's row, column, or box loses `val` as a candidate.
pub open spec fn spec_set(b: Seq<CellModel>, val: u32, r: int, c: int) -> Seq<CellModel> {
    Seq::new(
        81,
        |i: int|
            if i == r * 9 + c {
                CellModel { val, cands: if val == 0 { b[i].cands } else { Set::empty() } }
            } else if val != 0 && shares_unit(i, r * 9 + c) {
                CellModel { val: b[i].val, cands: b[i].cands.remove(val) }
            } else {
                b[i]
            },
    )
}

/// Assigning the same value at the same cell twice leaves the board exactly
/// as one assignment does.
pub proof fn lemma_set_idempotent(b: Seq<CellModel>, val: u32, r: int, c: int)
    requires
        b.len() == 81,
        0 <= r < 9,
        0 <= c < 9,
    ensures
        spec_set(spec_set(b, val, r, c), val, r, c) == spec_set(b, val, r, c),
{
    let b1 = spec_set(b, val, r, c);
    let b2 = spec_set(b1, val, r, c);
    assert forall|i: int| 0 <= i < 81 implies b2[i] == b1[i] by {
        assert(b2[i].cands =~= b1[i].cands);
    }
    assert(b2 =~= b1);
}

/// The value of cell `i` (row-major) in a raw 9x9 digit grid.
pub open spec fn gval(g: Seq<Seq<u32>>, i: int) -> u32 {
    g[i / 9][i % 9]
}

/// A raw digit grid of the right shape, every entry at most 9.
pub open spec fn grid_wf(g: Seq<Seq<u32>>) -> bool {
    &&& g.len() == 9
    &&& forall|r: int| 0 <= r < 9 ==> (#[trigger] g[r]).len() == 9
    &&& forall|i: int| 0 <= i < 81 ==> #[trigger] gval(g, i) <= 9
}

/// No two cells of the same row, column, or box hold the same nonzero digit.
pub open spec fn grid_consistent(g: Seq<Seq<u32>>) -> bool {
    forall|i: int, j: int|
        #![trigger gval(g, i), gval(g, j)]
        0 <= i < 81 && 0 <= j < 81 && i != j && shares_unit(i, j) && gval(g, i) != 0 ==> gval(g, i)
            != gval(g, j)
}

/// Every cell of the raw grid holds a nonzero digit.
pub open spec fn grid_complete(g: Seq<Seq<u32>>) -> bool {
    forall|i: int| 0 <= i < 81 ==> #[trigger] gval(g, i) != 0
}

/// The candidates cell `i` is left with once the values of the first `upto`
/// cells of `g` have been assigned: the digits 1..=9 held by no assigned
/// cell that shares `i`'s row, column, or box.
pub open spec fn init_cands(g: Seq<Seq<u32>>, i: int, upto: int) -> Set<u32> {
    Set::new(
        |d: u32|
            1 <= d <= 9 && !exists|j: int|
                0 <= j < upto && #[trigger] shares_unit(i, j) && gval(g, j) == d,
    )
}

/// A complete, consistent assignment: 81 digits 1..=9 with no repetition
/// within a row, a column, or a box.
pub open spec fn solution_values(s: Seq<u32>) -> bool {
    &&& s.len() == 81
    &&& forall|i: int| 0 <= i < 81 ==> 1 <= #[trigger] s[i] <= 9
    &&& forall|i: int, j: int|
        #![trigger s[i], s[j]]
        0 <= i < 81 && 0 <= j < 81 && i != j && shares_unit(i, j) ==> s[i] != s[j]
}

/// Solution `s` is still reachable from board `b`: every fixed cell agrees
/// with it, and every unknown cell keeps its digit of `s` as a candidate.
pub open spec fn reaches(b: Seq<CellModel>, s: Seq<u32>) -> bool {
    forall|i: int|
        0 <= i < 81 ==> {
            &&& ((#[trigger] b[i]).val != 0 ==> s[i] == b[i].val)
            &&& (b[i].val == 0 ==> b[i].cands.contains(s[i]))
        }
}

/// The board's values are exactly the digits of `s`.
pub open spec fn vals_match(b: Seq<CellModel>, s: Seq<u32>) -> bool {
    forall|i: int| 0 <= i < 81 ==> (#[trigger] b[i]).val == s[i]
}

/// Two boards hold the same values everywhere.
pub open spec fn same_vals(b1: Seq<CellModel>, b2: Seq<CellModel>) -> bool {
    forall|i: int| 0 <= i < 81 ==> (#[trigger] b1[i]).val == b2[i].val
}

/// Nine pairwise distinct digits, each between 1 and 9, include every digit.
proof fn lemma_nine_distinct_cover(v: Seq<u32>, d: u32)
    requires
        v.len() == 9,
        forall|a: int| 0 <= a < 9 ==> 1 <= #[trigger] v[a] <= 9,
        v.no_duplicates(),
        1 <= d <= 9,
    ensures
        v.contains(d),
{
    broadcast use vstd::set::group_set_axioms;

    if !v.contains(d) {
        let full = full_cands();
        assert(full =~= Set::<u32>::empty().insert(1).insert(2).insert(3).insert(4).insert(
            5,
        ).insert(6).insert(7).insert(8).insert(9));
        assert(full.len() == 9);
        let rest = full.remove(d);
        assert(rest.len() == 8);
        v.unique_seq_to_set();
        assert(v.to_set().subset_of(rest)) by {
            assert forall|x: u32| v.to_set().contains(x) implies rest.contains(x) by {
                assert(v.contains(x));
                let a = choose|a: int| 0 <= a < v.len() && v[a] == x;
                assert(1 <= x <= 9 && x != d);
            }
        }
        vstd::set_lib::lemma_len_subset(v.to_set(), rest);
        assert(false);
    }
}

/// In a full solution, the row of cell `i` holds digit `d` somewhere.
pub proof fn lemma_solution_row_has(s: Seq<u32>, i: int, d: u32)
    requires
        solution_values(s),
        0 <= i < 81,
        1 <= d <= 9,
    ensures
        exists|j: int| 0 <= j < 81 && row_of(j) == row_of(i) && #[trigger] s[j] == d,
{
    let r = row_of(i);
    let v = Seq::new(9, |c: int| s[r * 9 + c]);
    assert forall|a: int, b: int| 0 <= a < b < 9 implies v[a] != v[b] by {
        assert(row_of(r * 9 + a) == r && row_of(r * 9 + b) == r);
        assert(shares_unit(r * 9 + a, r * 9 + b));
    }
    lemma_nine_distinct_cover(v, d);
    let c = choose|c: int| 0 <= c < v.len() && v[c] == d;
    assert(row_of(r * 9 + c) == r && s[r * 9 + c] == d);
}

/// In a full solution, the column of cell `i` holds digit `d` somewhere.
pub proof fn lemma_solution_col_has(s: Seq<u32>, i: int, d: u32)
    requires
        solution_values(s),
        0 <= i < 81,
        1 <= d <= 9,
    ensures
        exists|j: int| 0 <= j < 81 && col_of(j) == col_of(i) && #[trigger] s[j] == d,
{
    let c = col_of(i);
    let v = Seq::new(9, |x: int| s[x * 9 + c]);
    assert forall|a: int, b: int| 0 <= a < b < 9 implies v[a] != v[b] by {
        assert(col_of(a * 9 + c) == c && col_of(b * 9 + c) == c);
        assert(shares_unit(a * 9 + c, b * 9 + c));
    }
    lemma_nine_distinct_cover(v, d);
    let x = choose|x: int| 0 <= x < v.len() && v[x] == d;
    assert(col_of(x * 9 + c) == c && s[x * 9 + c] == d);
}

/// In a full solution, the 3x3 box of cell `i` holds digit `d` somewhere.
#[verifier::rlimit(50)]
pub proof fn lemma_solution_box_has(s: Seq<u32>, i: int, d: u32)
    requires
        solution_values(s),
        0 <= i < 81,
        1 <= d <= 9,
    ensures
        exists|j: int|
            0 <= j < 81 && row_of(j) / 3 == row_of(i) / 3 && col_of(j) / 3 == col_of(i) / 3
                && #[trigger] s[j] == d,
{
    let rs = (row_of(i) / 3) * 3;
    let cs = (col_of(i) / 3) * 3;
    let v = Seq::new(9, |k: int| s[(rs + k / 3) * 9 + (cs + k % 3)]);
    assert forall|a: int, b: int| 0 <= a < b < 9 implies v[a] != v[b] by {
        let ja = (rs + a / 3) * 9 + (cs + a % 3);
        let jb = (rs + b / 3) * 9 + (cs + b % 3);
        assert(row_of(ja) == rs + a / 3 && col_of(ja) == cs + a % 3);
        assert(row_of(jb) == rs + b / 3 && col_of(jb) == cs + b % 3);
        assert(ja != jb);
        assert(shares_unit(ja, jb));
    }
    lemma_nine_distinct_cover(v, d);
    let k = choose|k: int| 0 <= k < v.len() && v[k] == d;
    let j = (rs + k / 3) * 9 + (cs + k % 3);
    assert(row_of(j) == rs + k / 3 && col_of(j) == cs + k % 3);
    assert(row_of(j) / 3 == row_of(i) / 3 && col_of(j) / 3 == col_of(i) / 3);
    assert(s[j] == d);
}

/// Assigning at a cell the digit that a reachable solution has there keeps
/// that solution reachable.
pub proof fn lemma_assign_keeps_reaches(
    b: Seq<CellModel>,
    s: Seq<u32>,
    d: u32,
    r: int,
    c: int,
)
    requires
        b.len() == 81,
        solution_values(s),
        reaches(b, s),
        0 <= r < 9,
        0 <= c < 9,
        s[r * 9 + c] == d,
    ensures
        reaches(spec_set(b, d, r, c), s),
{
    let t = r * 9 + c;
    let nb = spec_set(b, d, r, c);
    assert forall|i: int| 0 <= i < 81 implies ((#[trigger] nb[i]).val != 0 ==> s[i] == nb[i].val)
        && (nb[i].val == 0 ==> nb[i].cands.contains(s[i])) by {
        if i != t && d != 0 && shares_unit(i, t) {
            assert(s[i] != s[t]);
        }
    }
}

/// The digits a board's cells hold, as one flat sequence.
pub open spec fn vals_of(b: Seq<CellModel>) -> Seq<u32> {
    Seq::new(81, |i: int| b[i].val)
}

/// Every candidate of `b2` was already a candidate of `b1`: propagation
/// only removes candidates, never adds one.
pub open spec fn cands_subset(b2: Seq<CellModel>, b1: Seq<CellModel>) -> bool {
    forall|i: int, d: u32|
        0 <= i < 81 && #[trigger] b2[i].cands.contains(d) ==> b1[i].cands.contains(d)
}

/// Every cell assigned in `b2` but not in `b1` took one of its candidates
/// from `b1`.
pub open spec fn assigned_from(b1: Seq<CellModel>, b2: Seq<CellModel>) -> bool {
    forall|i: int|
        0 <= i < 81 && (#[trigger] b1[i]).val == 0 && b2[i].val != 0 ==> b1[i].cands.contains(
            b2[i].val,
        )
}

/// Digit `d` is a hidden single for cell `i` in its row: no other cell of
/// the row still has `d` as a candidate.
pub open spec fn hidden_in_row(b: Seq<CellModel>, i: int, d: u32) -> bool {
    forall|x: int|
        0 <= x < 9 && x != col_of(i) ==> !(#[trigger] b[row_of(i) * 9 + x]).cands.contains(d)
}

/// Digit `d` is a hidden single for cell `i` in its column.
pub open spec fn hidden_in_col(b: Seq<CellModel>, i: int, d: u32) -> bool {
    forall|y: int|
        0 <= y < 9 && y != row_of(i) ==> !(#[trigger] b[y * 9 + col_of(i)]).cands.contains(d)
}

/// Digit `d` is a hidden single for cell `i` in its box: no other
/// unassigned cell of the box still has `d` as a candidate.
pub open spec fn hidden_in_box(b: Seq<CellModel>, i: int, d: u32) -> bool {
    forall|m: int|
        0 <= m < 81 && row_of(m) / 3 == row_of(i) / 3 && col_of(m) / 3 == col_of(i) / 3 && m != i
            && (#[trigger] b[m]).val == 0 ==> !b[m].cands.contains(d)
}

/// One of the deduction rules forces digit `d` at cell `i`: the cell is
/// unassigned, holds `d` as a candidate, and `d` is a naked single or a
/// hidden single in the cell's row, column, or box.
pub open spec fn forced_at(b: Seq<CellModel>, i: int, d: u32) -> bool {
    &&& 0 <= i < 81
    &&& b[i].val == 0
    &&& b[i].cands.contains(d)
    &&& (cell_single(b[i], d) || hidden_in_row(b, i, d) || hidden_in_col(b, i, d) || hidden_in_box(
        b,
        i,
        d,
    ))
}

/// No deduction rule fires anywhere on the board.
pub open spec fn no_forced(b: Seq<CellModel>) -> bool {
    forall|i: int, d: u32| !forced_at(b, i, d)
}

/// One deduction step: some forced digit is assigned at its cell.
pub open spec fn deduce_step(b1: Seq<CellModel>, b2: Seq<CellModel>) -> bool {
    exists|i: int, d: u32|
        #![trigger forced_at(b1, i, d)]
        forced_at(b1, i, d) && b2 == spec_set(b1, d, row_of(i), col_of(i))
}

/// `b2` arises from `b1` by exactly `n` deduction steps.
pub open spec fn deduces_n(b1: Seq<CellModel>, b2: Seq<CellModel>, n: nat) -> bool
    decreases n,
{
    if n == 0 {
        b2 == b1
    } else {
        exists|m: Seq<CellModel>|
            #![trigger deduce_step(b1, m)]
            deduce_step(b1, m) && deduces_n(m, b2, (n - 1) as nat)
    }
}

/// `b2` arises from `b1` by some number of deduction steps: the reflexive
/// transitive closure of `deduce_step`.
pub open spec fn deduces(b1: Seq<CellModel>, b2: Seq<CellModel>) -> bool {
    exists|n: nat| deduces_n(b1, b2, n)
}

/// Every board deduces to itself.
pub proof fn lemma_deduces_refl(b: Seq<CellModel>)
    ensures
        deduces(b, b),
{
    assert(deduces_n(b, b, 0));
}

proof fn lemma_deduces_n_step(b1: Seq<CellModel>, b2: Seq<CellModel>, b3: Seq<CellModel>, n: nat)
    requires
        deduces_n(b1, b2, n),
        deduce_step(b2, b3),
    ensures
        deduces_n(b1, b3, n + 1),
    decreases n,
{
    if n == 0 {
        assert(deduce_step(b1, b3));
        assert(deduces_n(b3, b3, 0));
    } else {
        let m = choose|m: Seq<CellModel>| #[trigger]
            deduce_step(b1, m) && deduces_n(m, b2, (n - 1) as nat);
        lemma_deduces_n_step(m, b2, b3, (n - 1) as nat);
    }
}

/// A deduction chain extends by one more step.
pub proof fn lemma_deduces_step(b1: Seq<CellModel>, b2: Seq<CellModel>, b3: Seq<CellModel>)
    requires
        deduces(b1, b2),
        deduce_step(b2, b3),
    ensures
        deduces(b1, b3),
{
    let n = choose|n: nat| deduces_n(b1, b2, n);
    lemma_deduces_n_step(b1, b2, b3, n);
}



/// Number of unassigned cells.
pub open spec fn count_empty(b: Seq<CellModel>) -> nat
    decreases b.len(),
{
    if b.len() == 0 {
        0
    } else {
        count_empty(b.drop_last()) + if b.last().val == 0 {
            1nat
        } else {
            0nat
        }
    }
}

/// Two boards whose cells are unassigned at exactly the same places have the
/// same number of unassigned cells.
pub proof fn lemma_count_empty_same(b1: Seq<CellModel>, b2: Seq<CellModel>)
    requires
        b1.len() == b2.len(),
        forall|i: int| 0 <= i < b1.len() ==> ((#[trigger] b1[i]).val == 0 <==> b2[i].val == 0),
    ensures
        count_empty(b1) == count_empty(b2),
    decreases b1.len(),
{
    if b1.len() > 0 {
        lemma_count_empty_same(b1.drop_last(), b2.drop_last());
    }
}

/// Assigning a nonzero value to an unassigned cell lowers the number of
/// unassigned cells by one.
pub proof fn lemma_count_empty_fill(b1: Seq<CellModel>, b2: Seq<CellModel>, k: int)
    requires
        b1.len() == b2.len(),
        0 <= k < b1.len(),
        b1[k].val == 0,
        b2[k].val != 0,
        forall|i: int|
            0 <= i < b1.len() && i != k ==> ((#[trigger] b1[i]).val == 0 <==> b2[i].val == 0),
    ensures
        count_empty(b2) + 1 == count_empty(b1),
    decreases b1.len(),
{
    if k == b1.len() - 1 {
        lemma_count_empty_same(b1.drop_last(), b2.drop_last());
    } else {
        lemma_count_empty_fill(b1.drop_last(), b2.drop_last(), k);
    }
}

} // verus!
