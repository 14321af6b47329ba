//! The 9x9 board and its constraint-propagation solver.

use vstd::prelude::*;

use crate::cell::SudokuPos;
use crate::model::CellModel;
use crate::model::assigned_from;
use crate::model::board_complete;
use crate::model::board_consistent;
use crate::model::board_exhausted;
use crate::model::board_extends;
use crate::model::board_wf;
use crate::model::cands_subset;
use crate::model::cell_no_cands;
use crate::model::col_of;
use crate::model::count_empty;
use crate::model::deduce_step;
use crate::model::deduces;
use crate::model::forced_at;
use crate::model::hidden_in_box;
use crate::model::hidden_in_col;
use crate::model::hidden_in_row;
use crate::model::full_cands;
use crate::model::grid_wf;
use crate::model::gval;
use crate::model::init_cands;
use crate::model::lemma_assign_keeps_reaches;
use crate::model::lemma_count_empty_fill;
use crate::model::lemma_deduces_refl;
use crate::model::lemma_deduces_step;
use crate::model::no_forced;
use crate::model::lemma_solution_box_has;
use crate::model::lemma_solution_col_has;
use crate::model::lemma_solution_row_has;
use crate::model::reaches;
use crate::model::row_of;
use crate::model::shares_unit;
use crate::model::solution_values;
use crate::model::spec_set;

verus! {

/// A 9x9 Sudoku board, stored as 81 cells in row-major order.
#[derive(Debug)]
pub struct SudokuBoard {
    board: Vec<SudokuPos>,
}

impl View for SudokuBoard {
    type V = Seq<CellModel>;

    closed spec fn view(&self) -> Seq<CellModel> {
        Seq::new(self.board@.len(), |i: int| self.board@[i]@)
    }
}

/// `c` after digit `d` is removed from its candidates.
pub open spec fn rm_cand(c: CellModel, d: u32) -> CellModel {
    CellModel { val: c.val, cands: c.cands.remove(d) }
}

/// The character that renders digit `v`.
pub open spec fn digit_char(v: u32) -> char {
    if v == 0 {
        '0'
    } else if v == 1 {
        '1'
    } else if v == 2 {
        '2'
    } else if v == 3 {
        '3'
    } else if v == 4 {
        '4'
    } else if v == 5 {
        '5'
    } else if v == 6 {
        '6'
    } else if v == 7 {
        '7'
    } else if v == 8 {
        '8'
    } else {
        '9'
    }
}

/// The character at position `k` of a rendered board: nine rows of nine
/// digit characters, each row but the last followed by a newline.
pub open spec fn render_char_at(b: Seq<CellModel>, k: int) -> char {
    if k % 10 == 9 {
        '\n'
    } else {
        digit_char(b[(k / 10) * 9 + k % 10].val)
    }
}

/// The one-character string for digit `v`.
fn digit_str(v: u32) -> (r: &'static str)
    requires
        v <= 9,
    ensures
        r@ == seq![digit_char(v)],
{
    proof {
        reveal_strlit("0");
        reveal_strlit("1");
        reveal_strlit("2");
        reveal_strlit("3");
        reveal_strlit("4");
        reveal_strlit("5");
        reveal_strlit("6");
        reveal_strlit("7");
        reveal_strlit("8");
        reveal_strlit("9");
    }
    let r = match v {
        0 => "0",
        1 => "1",
        2 => "2",
        3 => "3",
        4 => "4",
        5 => "5",
        6 => "6",
        7 => "7",
        8 => "8",
        _ => "9",
    };
    proof {
        assert(r@ =~= seq![digit_char(v)]);
    }
    r
}

/// Cell `m` lies in the 3x3 box of (`row`, `col`).
spec fn in_box_of(m: int, row: int, col: int) -> bool {
    row_of(m) / 3 == row / 3 && col_of(m) / 3 == col / 3
}

/// The position (0..9) of cell `m` within the 3x3 box of (`row`, `col`),
/// in row-major order.
spec fn box_pos_of(m: int, row: int, col: int) -> int {
    (row_of(m) - (row / 3) * 3) * 3 + (col_of(m) - (col / 3) * 3)
}

impl Clone for SudokuBoard {
    /// A deep copy: the clone's cells equal the original's.
    fn clone(&self) -> (r: Self)
        ensures
            r@ == self@,
    {
        let n = self.board.len();
        let mut v: Vec<SudokuPos> = Vec::new();
        let mut i: usize = 0;
        while i < n
            invariant
                i <= n,
                n == self.board@.len(),
                v@.len() == i,
                forall|j: int| 0 <= j < i ==> v@[j] == self.board@[j],
            decreases n - i,
        {
            v.push(self.board[i]);
            i += 1;
        }
        let r = SudokuBoard { board: v };
        proof {
            assert(r@ =~= self@);
        }
        r
    }
}

impl SudokuBoard {
    /// A blank board: every cell unknown with all digits as candidates.
    pub fn empty() -> (r: Self)
        ensures
            r@.len() == 81,
            forall|i: int| 0 <= i < 81 ==> (#[trigger] r@[i]).val == 0,
            forall|i: int| 0 <= i < 81 ==> (#[trigger] r@[i]).cands == full_cands(),
            board_wf(r@),
    {
        let mut v: Vec<SudokuPos> = Vec::new();
        let mut i: usize = 0;
        while i < 81
            invariant
                i <= 81,
                v@.len() == i,
                forall|j: int| 0 <= j < i ==> (#[trigger] v@[j]@).val == 0,
                forall|j: int| 0 <= j < i ==> (#[trigger] v@[j]@).cands == full_cands(),
            decreases 81 - i,
        {
            v.push(SudokuPos::new_with(0));
            i += 1;
        }
        let r = SudokuBoard { board: v };
        proof {
            assert(forall|i: int| 0 <= i < 81 ==> (#[trigger] r@[i]).val == 0);
        }
        r
    }

    /// A board initialised from a raw digit grid: every cell takes its
    /// given value, and each unknown cell's candidates are the digits held
    /// by no cell sharing its row, column, or box.
    #[verifier::loop_isolation(false)]
    #[verifier::rlimit(60)]
    pub fn new_with(board: &[[u32; 9]; 9]) -> (r: Self)
        requires
            grid_wf(board.deep_view()),
        ensures
            r@.len() == 81,
            board_wf(r@),
            forall|i: int| 0 <= i < 81 ==> (#[trigger] r@[i]).val == gval(board.deep_view(), i),
            forall|i: int|
                0 <= i < 81 && gval(board.deep_view(), i) != 0 ==> (#[trigger] r@[i]).cands
                    == Set::<u32>::empty(),
            forall|i: int|
                0 <= i < 81 && gval(board.deep_view(), i) == 0 ==> (#[trigger] r@[i]).cands
                    == init_cands(board.deep_view(), i, 81),
    {
        let ghost g = board.deep_view();
        let mut b = Self::empty();
        proof {
            assert forall|i: int| 0 <= i < 81 implies (#[trigger] b@[i]).cands == init_cands(
                g,
                i,
                0,
            ) by {
                assert(b@[i].cands =~= init_cands(g, i, 0));
            }
        }
        let mut k: usize = 0;
        while k < 81
            invariant
                k <= 81,
                b@.len() == 81,
                forall|i: int|
                    0 <= i < 81 ==> (#[trigger] b@[i]).val == if i < k {
                        gval(g, i)
                    } else {
                        0u32
                    },
                forall|i: int|
                    0 <= i < 81 && i < k && gval(g, i) != 0 ==> (#[trigger] b@[i]).cands
                        == Set::<u32>::empty(),
                forall|i: int|
                    0 <= i < 81 && (i >= k || gval(g, i) == 0) ==> (#[trigger] b@[i]).cands
                        == init_cands(g, i, k as int),
            decreases 81 - k,
        {
            let row = k / 9;
            let col = k % 9;
            let v = board[row][col];
            proof {
                assert(v == gval(g, k as int));
                assert(v <= 9);
                assert(row_of(k as int) == row && col_of(k as int) == col);
            }
            let ghost bpre = b@;
            b.set(v, row, col);
            proof {
                assert(b@ == spec_set(bpre, v, row as int, col as int));
                assert forall|i: int|
                    0 <= i < 81 && (i >= k + 1 || gval(g, i) == 0) implies (#[trigger] b@[i]).cands
                    == init_cands(g, i, k as int + 1) by {
                    if v != 0 && i == k as int {
                        assert(b@[i].cands =~= init_cands(g, i, k as int + 1)) by {
                            assert(gval(g, i) == 0);
                            assert(false);
                        }
                    } else if v != 0 && shares_unit(i, k as int) {
                        assert(b@[i].cands == bpre[i].cands.remove(v));
                        assert(b@[i].cands =~= init_cands(g, i, k as int + 1)) by {
                            assert forall|d: u32| init_cands(g, i, k as int + 1).contains(
                                d,
                            ) implies b@[i].cands.contains(d) by {
                                assert(!(shares_unit(i, k as int) && gval(g, k as int) == d));
                                assert(d != v);
                                assert(init_cands(g, i, k as int).contains(d));
                            }
                            assert forall|d: u32| b@[i].cands.contains(d) implies init_cands(
                                g,
                                i,
                                k as int + 1,
                            ).contains(d) by {
                                assert(init_cands(g, i, k as int).contains(d) && d != v);
                                assert forall|j: int|
                                    0 <= j < k + 1 && #[trigger] shares_unit(i, j) implies gval(
                                    g,
                                    j,
                                ) != d by {
                                    if j < k {
                                        assert(!(shares_unit(i, j) && gval(g, j) == d));
                                    }
                                }
                            }
                        }
                    } else {
                        assert(b@[i].cands == bpre[i].cands);
                        assert(bpre[i].cands == init_cands(g, i, k as int));
                        assert(b@[i].cands =~= init_cands(g, i, k as int + 1)) by {
                            assert forall|d: u32| init_cands(g, i, k as int).contains(
                                d,
                            ) implies init_cands(g, i, k as int + 1).contains(d) by {
                                assert forall|j: int|
                                    0 <= j < k + 1 && #[trigger] shares_unit(i, j) implies gval(
                                    g,
                                    j,
                                ) != d by {
                                    if j == k as int {
                                        assert(!(v != 0 && shares_unit(i, k as int)));
                                        assert(gval(g, j) == v);
                                    } else {
                                        assert(!(shares_unit(i, j) && gval(g, j) == d));
                                    }
                                }
                            }
                            assert forall|d: u32| init_cands(g, i, k as int + 1).contains(
                                d,
                            ) implies init_cands(g, i, k as int).contains(d) by {}
                        }
                    }
                }
                assert forall|i: int|
                    0 <= i < 81 && i < k + 1 && gval(g, i) != 0 implies (#[trigger] b@[i]).cands
                    == Set::<u32>::empty() by {
                    if i == k as int {
                    } else {
                        assert(bpre[i].cands == Set::<u32>::empty());
                        if v != 0 && shares_unit(i, k as int) {
                            assert(b@[i].cands =~= Set::<u32>::empty());
                        }
                    }
                }
            }
            k += 1;
        }
        proof {
            assert(board_wf(b@)) by {
                assert forall|i: int, d: u32|
                    0 <= i < 81 && #[trigger] b@[i].cands.contains(d) implies b@[i].val == 0 && 1
                    <= d <= 9 by {
                    if gval(g, i) != 0 {
                        assert(b@[i].cands == Set::<u32>::empty());
                    } else {
                        assert(init_cands(g, i, 81).contains(d));
                    }
                }
                assert forall|i: int, j: int, d: u32|
                    #![trigger b@[i].cands.contains(d), b@[j].val]
                    0 <= i < 81 && 0 <= j < 81 && j != i && shares_unit(i, j)
                        && b@[i].cands.contains(d) implies b@[j].val != d by {
                    assert(gval(g, i) == 0);
                    assert(init_cands(g, i, 81).contains(d));
                    assert(!(shares_unit(i, j) && gval(g, j) == d));
                }
            }
        }
        b
    }

    /// The cell at (`row`, `col`).
    pub fn get(&self, row: usize, col: usize) -> (r: &SudokuPos)
        requires
            self@.len() == 81,
            row < 9,
            col < 9,
        ensures
            r@ == self@[row as int * 9 + col],
    {
        &self.board[row * 9 + col]
    }

    /// A mutable borrow of the cell at (`row`, `col`).
    pub fn get_mut(&mut self, row: usize, col: usize) -> (r: &mut SudokuPos)
        requires
            old(self)@.len() == 81,
            row < 9,
            col < 9,
        ensures
            r@ == old(self)@[row as int * 9 + col],
            final(self)@.len() == 81,
            final(self)@[row as int * 9 + col] == final(r)@,
            forall|m: int|
                0 <= m < 81 && m != row as int * 9 + col ==> final(self)@[m] == old(self)@[m],
    {
        &mut self.board[row * 9 + col]
    }

    /// Whether some unassigned cell has run out of candidates, so no
    /// completion of the board exists from here.
    pub fn exhausted(&self) -> (r: bool)
        requires
            self@.len() == 81,
        ensures
            r == board_exhausted(self@),
    {
        let mut i: usize = 0;
        while i < 81
            invariant
                i <= 81,
                self@.len() == 81,
                forall|j: int|
                    0 <= j < i ==> !((#[trigger] self@[j]).val == 0 && cell_no_cands(self@[j])),
            decreases 81 - i,
        {
            let p = self.board[i];
            if p.val == 0 && p.no_candidates() {
                proof {
                    assert(self@[i as int].val == 0 && cell_no_cands(self@[i as int]));
                }
                return true;
            }
            i += 1;
        }
        false
    }

    /// Assign `val` at (`row`, `col`): the cell takes the value, and if it
    /// is nonzero, the cell's candidates are cleared and `val` is removed
    /// from the candidates of every cell sharing the row, the column, or
    /// the 3x3 box.
    #[verifier::loop_isolation(false)]
    #[verifier::rlimit(50)]
    pub fn set(&mut self, val: u32, row: usize, col: usize)
        requires
            old(self)@.len() == 81,
            row < 9,
            col < 9,
            val <= 9,
        ensures
            final(self)@ == spec_set(old(self)@, val, row as int, col as int),
    {
        let ghost b0 = self@;
        let t = row * 9 + col;
        proof {
            assert(row_of(t as int) == row && col_of(t as int) == col);
        }
        let mut p = self.board[t];
        p.val = val;
        if val == 0 {
            self.board[t] = p;
            proof {
                assert(self@ =~= spec_set(b0, val, row as int, col as int));
            }
            return ;
        }
        p.clear_candidates();
        let ghost tgt = CellModel { val, cands: Set::<u32>::empty() };
        self.board[t] = p;
        assert(self@[t as int] == tgt);

        // Clear `val` from the candidates of the target's row.
        let mut k: usize = 0;
        while k < 9
            invariant
                self@.len() == 81,
                1 <= val <= 9,
                row < 9,
                col < 9,
                k <= 9,
                t == row * 9 + col,
                b0.len() == 81,
                self@[t as int] == tgt,
                forall|m: int|
                    #![trigger b0[m]]
                    0 <= m < 81 && m != t && row_of(m) == row && col_of(m) < k ==> self@[m]
                        == rm_cand(b0[m], val),
                forall|m: int|
                    #![trigger b0[m]]
                    0 <= m < 81 && m != t && !(row_of(m) == row && col_of(m) < k) ==> self@[m]
                        == b0[m],
            decreases 9 - k,
        {
            let j = row * 9 + k;
            proof {
                assert(row_of(j as int) == row && col_of(j as int) == k);
            }
            let ghost spre = self@;
            let mut q = self.board[j];
            q.remove_candidate(val);
            self.board[j] = q;
            proof {
                assert(forall|m: int| 0 <= m < 81 && m != j ==> self@[m] == spre[m]);
                if j == t {
                    assert(q@.cands =~= Set::<u32>::empty());
                    assert(self@[t as int] == tgt);
                } else {
                    assert(self@[j as int] == rm_cand(b0[j as int], val));
                }
            }
            k += 1;
        }

        // Clear `val` from the candidates of the target's column.
        let mut k: usize = 0;
        while k < 9
            invariant
                self@.len() == 81,
                1 <= val <= 9,
                row < 9,
                col < 9,
                k <= 9,
                t == row * 9 + col,
                b0.len() == 81,
                self@[t as int] == tgt,
                forall|m: int|
                    #![trigger b0[m]]
                    0 <= m < 81 && m != t && (row_of(m) == row || (col_of(m) == col && row_of(m)
                        < k)) ==> self@[m] == rm_cand(b0[m], val),
                forall|m: int|
                    #![trigger b0[m]]
                    0 <= m < 81 && m != t && !(row_of(m) == row || (col_of(m) == col && row_of(m)
                        < k)) ==> self@[m] == b0[m],
            decreases 9 - k,
        {
            let j = k * 9 + col;
            proof {
                assert(row_of(j as int) == k && col_of(j as int) == col);
            }
            let mut q = self.board[j];
            q.remove_candidate(val);
            self.board[j] = q;
            proof {
                if j == t {
                    assert(q@.cands =~= Set::<u32>::empty());
                    assert(self@[t as int] == tgt);
                } else if k == row {
                    assert(false);
                } else {
                    assert(self@[j as int] == rm_cand(b0[j as int], val));
                }
            }
            k += 1;
        }

        // Clear `val` from the candidates of the target's 3x3 box.
        let rs = (row / 3) * 3;
        let cs = (col / 3) * 3;
        let mut k: usize = 0;
        while k < 9
            invariant
                self@.len() == 81,
                1 <= val <= 9,
                row < 9,
                col < 9,
                k <= 9,
                t == row * 9 + col,
                rs == (row / 3) * 3,
                cs == (col / 3) * 3,
                b0.len() == 81,
                self@[t as int] == tgt,
                forall|m: int|
                    #![trigger b0[m]]
                    0 <= m < 81 && m != t && (row_of(m) == row || col_of(m) == col || (in_box_of(m, row as int, col as int)
                        && box_pos_of(m, row as int, col as int) < k)) ==> self@[m] == rm_cand(b0[m], val),
                forall|m: int|
                    #![trigger b0[m]]
                    0 <= m < 81 && m != t && !(row_of(m) == row || col_of(m) == col || (in_box_of(m, row as int, col as int)
                        && box_pos_of(m, row as int, col as int) < k)) ==> self@[m] == b0[m],
            decreases 9 - k,
        {
            let jr = rs + k / 3;
            let jc = cs + k % 3;
            let j = jr * 9 + jc;
            proof {
                assert(row_of(j as int) == jr && col_of(j as int) == jc);
                assert(in_box_of(j as int, row as int, col as int));
                assert(box_pos_of(j as int, row as int, col as int) == k);
            }
            let mut q = self.board[j];
            q.remove_candidate(val);
            self.board[j] = q;
            proof {
                if j == t {
                    assert(q@.cands =~= Set::<u32>::empty());
                    assert(self@[t as int] == tgt);
                } else if row_of(j as int) == row || col_of(j as int) == col {
                    // already cleared once; removing again changes nothing
                    assert(q@.cands =~= rm_cand(b0[j as int], val).cands);
                    assert(self@[j as int] == rm_cand(b0[j as int], val));
                } else {
                    assert(self@[j as int] == rm_cand(b0[j as int], val));
                }
            }
            k += 1;
        }

        proof {
            assert forall|m: int| 0 <= m < 81 && m != t implies (shares_unit(m, t as int)
                <==> (row_of(m) == row || col_of(m) == col || in_box_of(m, row as int, col as int))) by {}
            assert forall|m: int|
                0 <= m < 81 && m != t && in_box_of(m, row as int, col as int) implies 0 <= box_pos_of(
                m,
                row as int,
                col as int,
            ) < 9 by {}
            assert(self@ =~= spec_set(b0, val, row as int, col as int));
        }
    }

    /// Row hidden single at (`row`, `col`): the least candidate digit of
    /// the cell that no other cell of the row still has as a candidate, if
    /// there is one.
    #[verifier::loop_isolation(false)]
    fn hidden_single_row(&self, row: usize, col: usize) -> (r: Option<u32>)
        requires
            self@.len() == 81,
            row < 9,
            col < 9,
        ensures
            match r {
                Some(d) => 1 <= d <= 9 && self@[row as int * 9 + col].cands.contains(d)
                    && hidden_in_row(self@, row as int * 9 + col, d),
                None => forall|d: u32|
                    self@[row as int * 9 + col].cands.contains(d) ==> !(#[trigger] hidden_in_row(
                        self@,
                        row as int * 9 + col,
                        d,
                    )),
            },
    {
        let ghost me = row as int * 9 + col;
        proof {
            assert(row_of(me) == row && col_of(me) == col);
        }
        let p = self.board[row * 9 + col];
        let mut d: u32 = 1;
        while d <= 9
            invariant
                1 <= d <= 10,
                forall|e: u32|
                    1 <= e < d && self@[me].cands.contains(e) ==> !(#[trigger] hidden_in_row(
                        self@,
                        me,
                        e,
                    )),
            decreases 10 - d,
        {
            if p.has_candidate(d) {
                let mut elsewhere = false;
                let mut x: usize = 0;
                while x < 9
                    invariant
                        x <= 9,
                        !elsewhere ==> forall|y: int|
                            0 <= y < x && y != col ==> !(#[trigger] self@[row as int * 9
                                + y]).cands.contains(d),
                        elsewhere ==> exists|y: int|
                            0 <= y < 9 && y != col && (#[trigger] self@[row as int * 9
                                + y]).cands.contains(d),
                    decreases 9 - x,
                {
                    if x != col && self.board[row * 9 + x].has_candidate(d) {
                        proof {
                            assert(self@[row as int * 9 + x].cands.contains(d));
                        }
                        elsewhere = true;
                    }
                    x += 1;
                }
                if !elsewhere {
                    proof {
                        assert(hidden_in_row(self@, me, d));
                    }
                    return Some(d);
                }
                proof {
                    assert(!hidden_in_row(self@, me, d)) by {
                        let y = choose|y: int|
                            0 <= y < 9 && y != col && (#[trigger] self@[row as int * 9
                                + y]).cands.contains(d);
                    }
                }
            }
            d += 1;
        }
        proof {
            assert forall|dd: u32| self@[me].cands.contains(dd) implies !(#[trigger] hidden_in_row(
                self@,
                me,
                dd,
            )) by {
                assert(self@[me] == self.board@[me]@);
                assert(1 <= dd <= 9);
            }
        }
        None
    }

    /// Column hidden single at (`row`, `col`): the least candidate digit of
    /// the cell that no other cell of the column still has as a candidate,
    /// if there is one.
    #[verifier::loop_isolation(false)]
    fn hidden_single_col(&self, row: usize, col: usize) -> (r: Option<u32>)
        requires
            self@.len() == 81,
            row < 9,
            col < 9,
        ensures
            match r {
                Some(d) => 1 <= d <= 9 && self@[row as int * 9 + col].cands.contains(d)
                    && hidden_in_col(self@, row as int * 9 + col, d),
                None => forall|d: u32|
                    self@[row as int * 9 + col].cands.contains(d) ==> !(#[trigger] hidden_in_col(
                        self@,
                        row as int * 9 + col,
                        d,
                    )),
            },
    {
        let ghost me = row as int * 9 + col;
        proof {
            assert(row_of(me) == row && col_of(me) == col);
        }
        let p = self.board[row * 9 + col];
        let mut d: u32 = 1;
        while d <= 9
            invariant
                1 <= d <= 10,
                forall|e: u32|
                    1 <= e < d && self@[me].cands.contains(e) ==> !(#[trigger] hidden_in_col(
                        self@,
                        me,
                        e,
                    )),
            decreases 10 - d,
        {
            if p.has_candidate(d) {
                let mut elsewhere = false;
                let mut y: usize = 0;
                while y < 9
                    invariant
                        y <= 9,
                        !elsewhere ==> forall|z: int|
                            0 <= z < y && z != row ==> !(#[trigger] self@[z * 9
                                + col as int]).cands.contains(d),
                        elsewhere ==> exists|z: int|
                            0 <= z < 9 && z != row && (#[trigger] self@[z * 9
                                + col as int]).cands.contains(d),
                    decreases 9 - y,
                {
                    if y != row && self.board[y * 9 + col].has_candidate(d) {
                        proof {
                            assert(self@[y * 9 + col as int].cands.contains(d));
                        }
                        elsewhere = true;
                    }
                    y += 1;
                }
                if !elsewhere {
                    proof {
                        assert(hidden_in_col(self@, me, d));
                    }
                    return Some(d);
                }
                proof {
                    assert(!hidden_in_col(self@, me, d)) by {
                        let z = choose|z: int|
                            0 <= z < 9 && z != row && (#[trigger] self@[z * 9
                                + col as int]).cands.contains(d);
                    }
                }
            }
            d += 1;
        }
        proof {
            assert forall|dd: u32| self@[me].cands.contains(dd) implies !(#[trigger] hidden_in_col(
                self@,
                me,
                dd,
            )) by {
                assert(self@[me] == self.board@[me]@);
                assert(1 <= dd <= 9);
            }
        }
        None
    }

    /// Box hidden single at (`row`, `col`): the least candidate digit of
    /// the cell that no other unassigned cell of the 3x3 box still has as a
    /// candidate, if there is one.
    #[verifier::loop_isolation(false)]
    fn hidden_single_box(&self, row: usize, col: usize) -> (r: Option<u32>)
        requires
            self@.len() == 81,
            row < 9,
            col < 9,
        ensures
            match r {
                Some(d) => 1 <= d <= 9 && self@[row as int * 9 + col].cands.contains(d)
                    && hidden_in_box(self@, row as int * 9 + col, d),
                None => forall|d: u32|
                    self@[row as int * 9 + col].cands.contains(d) ==> !(#[trigger] hidden_in_box(
                        self@,
                        row as int * 9 + col,
                        d,
                    )),
            },
    {
        let ghost me = row as int * 9 + col;
        proof {
            assert(row_of(me) == row && col_of(me) == col);
        }
        let p = self.board[row * 9 + col];
        let rs = (row / 3) * 3;
        let cs = (col / 3) * 3;
        let mut d: u32 = 1;
        while d <= 9
            invariant
                1 <= d <= 10,
                forall|e: u32|
                    1 <= e < d && self@[me].cands.contains(e) ==> !(#[trigger] hidden_in_box(
                        self@,
                        me,
                        e,
                    )),
            decreases 10 - d,
        {
            if p.has_candidate(d) {
                let mut elsewhere = false;
                let mut k: usize = 0;
                while k < 9
                    invariant
                        k <= 9,
                        !elsewhere ==> forall|m: int|
                            0 <= m < 81 && in_box_of(m, row as int, col as int) && m != me
                                && box_pos_of(m, row as int, col as int) < k && (
                            #[trigger] self@[m]).val == 0 ==> !self@[m].cands.contains(d),
                        elsewhere ==> exists|m: int|
                            0 <= m < 81 && in_box_of(m, row as int, col as int) && m != me && (
                            #[trigger] self@[m]).val == 0 && self@[m].cands.contains(d),
                    decreases 9 - k,
                {
                    let jr = rs + k / 3;
                    let jc = cs + k % 3;
                    proof {
                        let j = jr as int * 9 + jc;
                        assert(row_of(j) == jr && col_of(j) == jc);
                        assert(in_box_of(j, row as int, col as int));
                        assert(box_pos_of(j, row as int, col as int) == k);
                    }
                    if jr != row || jc != col {
                        let q = self.board[jr * 9 + jc];
                        if q.val == 0 && q.has_candidate(d) {
                            proof {
                                let j = jr as int * 9 + jc;
                                assert(self@[j].val == 0 && self@[j].cands.contains(d));
                            }
                            elsewhere = true;
                        }
                    }
                    k += 1;
                }
                if !elsewhere {
                    proof {
                        assert(hidden_in_box(self@, me, d)) by {
                            assert forall|m: int|
                                0 <= m < 81 && row_of(m) / 3 == row_of(me) / 3 && col_of(m) / 3
                                    == col_of(me) / 3 && m != me && (#[trigger] self@[m]).val
                                    == 0 implies !self@[m].cands.contains(d) by {
                                assert(in_box_of(m, row as int, col as int));
                                assert(0 <= box_pos_of(m, row as int, col as int) < 9);
                            }
                        }
                    }
                    return Some(d);
                }
                proof {
                    assert(!hidden_in_box(self@, me, d)) by {
                        let m = choose|m: int|
                            0 <= m < 81 && in_box_of(m, row as int, col as int) && m != me && (
                            #[trigger] self@[m]).val == 0 && self@[m].cands.contains(d);
                        assert(row_of(m) / 3 == row_of(me) / 3 && col_of(m) / 3 == col_of(me) / 3);
                    }
                }
            }
            d += 1;
        }
        proof {
            assert forall|dd: u32| self@[me].cands.contains(dd) implies !(#[trigger] hidden_in_box(
                self@,
                me,
                dd,
            )) by {
                assert(self@[me] == self.board@[me]@);
                assert(1 <= dd <= 9);
            }
        }
        None
    }
}

impl SudokuBoard {
    /// Constraint propagation: repeatedly assign naked singles (a cell with
    /// one candidate left) and hidden singles (a digit possible in only one
    /// cell of its row, column, or box) until the board is complete (return
    /// true), a full pass changes nothing, or some unassigned cell has no
    /// candidates left (return false).
    #[verifier::loop_isolation(false)]
    #[verifier::rlimit(60)]
    pub fn solve(&mut self) -> (r: bool)
        requires
            board_wf(old(self)@),
        ensures
            board_wf(final(self)@),
            board_extends(old(self)@, final(self)@),
            board_consistent(old(self)@) ==> board_consistent(final(self)@),
            count_empty(final(self)@) <= count_empty(old(self)@),
            r ==> board_complete(final(self)@),
            !r ==> !board_complete(final(self)@),
            board_complete(old(self)@) ==> r && final(self)@ == old(self)@,
            board_exhausted(old(self)@) ==> !r,
            board_exhausted(old(self)@) ==> board_exhausted(final(self)@),
            cands_subset(final(self)@, old(self)@),
            assigned_from(old(self)@, final(self)@),
            deduces(old(self)@, final(self)@),
            !r ==> board_exhausted(final(self)@) || no_forced(final(self)@),
            forall|s: Seq<u32>|
                solution_values(s) && reaches(old(self)@, s) ==> #[trigger] reaches(
                    final(self)@,
                    s,
                ),
    {
        proof {
            lemma_deduces_refl(old(self)@);
        }
        loop
            invariant
                board_wf(self@),
                board_extends(old(self)@, self@),
                board_consistent(old(self)@) ==> board_consistent(self@),
                count_empty(self@) <= count_empty(old(self)@),
                board_complete(old(self)@) ==> self@ == old(self)@,
                board_exhausted(old(self)@) ==> board_exhausted(self@),
                cands_subset(self@, old(self)@),
                assigned_from(old(self)@, self@),
                deduces(old(self)@, self@),
                forall|s: Seq<u32>|
                    solution_values(s) && reaches(old(self)@, s) ==> #[trigger] reaches(self@, s),
            decreases count_empty(self@),
        {
            let mut has_empty = false;
            let mut has_changes = false;
            let ghost pass0 = self@;
            let mut i: usize = 0;
            while i < 81
                invariant
                    i <= 81,
                    board_wf(self@),
                    board_extends(pass0, self@),
                    board_extends(old(self)@, self@),
                    board_consistent(old(self)@) ==> board_consistent(self@),
                    count_empty(self@) <= count_empty(pass0),
                    has_changes ==> count_empty(self@) < count_empty(pass0),
                    !has_changes ==> self@ == pass0,
                    has_empty ==> has_changes || exists|j: int|
                        0 <= j < 81 && (#[trigger] self@[j]).val == 0,
                    !has_empty ==> forall|j: int| 0 <= j < i ==> (#[trigger] self@[j]).val != 0,
                    board_exhausted(pass0) ==> exists|j: int|
                        i <= j < 81 && (#[trigger] self@[j]).val == 0 && cell_no_cands(self@[j]),
                    board_complete(old(self)@) ==> self@ == old(self)@ && !has_empty
                        && !has_changes,
                    cands_subset(self@, old(self)@),
                    assigned_from(old(self)@, self@),
                    deduces(old(self)@, self@),
                    !has_changes ==> forall|j: int, dd: u32|
                        0 <= j < i ==> !(#[trigger] forced_at(self@, j, dd)),
                    forall|s: Seq<u32>|
                        solution_values(s) && reaches(old(self)@, s) ==> #[trigger] reaches(
                            self@,
                            s,
                        ),
                decreases 81 - i,
            {
                let row = i / 9;
                let col = i % 9;
                let p = self.board[i];
                proof {
                    assert(p@ == self@[i as int]);
                }
                if p.val == 0 {
                    has_empty = true;

                    // An unassigned cell with no candidates: unsatisfiable.
                    if p.no_candidates() {
                        proof {
                            assert(self@[i as int].val == 0);
                        }
                        return false;
                    }
                    // Naked single, then hidden single in the row, the
                    // column, and the box; the first rule that fires
                    // assigns and the pass moves to the next cell.
                    let mut forced: Option<u32> = None;
                    if let Some(d) = p.single_candidate() {
                        proof {
                            assert(forced_at(self@, i as int, d));
                            assert forall|s: Seq<u32>|
                                solution_values(s) && #[trigger] reaches(self@, s) implies s[i as int]
                                == d by {
                                assert(self@[i as int].cands.contains(s[i as int]));
                            }
                        }
                        forced = Some(d);
                    } else if let Some(d) = self.hidden_single_row(row, col) {
                        proof {
                            assert(forced_at(self@, i as int, d));
                            assert forall|s: Seq<u32>|
                                solution_values(s) && #[trigger] reaches(self@, s) implies s[i as int]
                                == d by {
                                lemma_hidden_row_sound(self@, s, row as int, col as int, d);
                            }
                        }
                        forced = Some(d);
                    } else if let Some(d) = self.hidden_single_col(row, col) {
                        proof {
                            assert(forced_at(self@, i as int, d));
                            assert forall|s: Seq<u32>|
                                solution_values(s) && #[trigger] reaches(self@, s) implies s[i as int]
                                == d by {
                                lemma_hidden_col_sound(self@, s, row as int, col as int, d);
                            }
                        }
                        forced = Some(d);
                    } else if let Some(d) = self.hidden_single_box(row, col) {
                        proof {
                            assert(forced_at(self@, i as int, d));
                            assert forall|s: Seq<u32>|
                                solution_values(s) && #[trigger] reaches(self@, s) implies s[i as int]
                                == d by {
                                lemma_hidden_box_sound(self@, s, row as int, col as int, d);
                            }
                        }
                        forced = Some(d);
                    }
                    if let Some(d) = forced {
                        proof {
                            assert(self@[i as int].cands.contains(d));
                            lemma_assign(self@, d, row as int, col as int);
                        }
                        let ghost bpre = self@;
                        self.set(d, row, col);
                        has_changes = true;
                        proof {
                            assert(self@ == spec_set(bpre, d, row as int, col as int));
                            assert(row_of(i as int) == row && col_of(i as int) == col);
                            assert(forced_at(bpre, i as int, d));
                            assert(deduce_step(bpre, self@));
                            lemma_deduces_step(old(self)@, bpre, self@);
                            assert(cands_subset(self@, old(self)@)) by {
                                assert forall|m: int, dd: u32|
                                    0 <= m < 81 && #[trigger] self@[m].cands.contains(
                                        dd,
                                    ) implies old(self)@[m].cands.contains(dd) by {
                                    assert(bpre[m].cands.contains(dd));
                                }
                            }
                            assert(assigned_from(old(self)@, self@)) by {
                                assert forall|m: int|
                                    0 <= m < 81 && (#[trigger] old(self)@[m]).val == 0
                                        && self@[m].val != 0 implies old(self)@[m].cands.contains(
                                    self@[m].val,
                                ) by {
                                    if bpre[m].val != 0 {
                                        assert(self@[m].val == bpre[m].val);
                                    } else {
                                        assert(bpre[m].cands.contains(self@[m].val));
                                    }
                                }
                            }
                            assert forall|s: Seq<u32>|
                                solution_values(s) && reaches(old(self)@, s) implies #[trigger] reaches(
                                self@,
                                s,
                            ) by {
                                assert(reaches(bpre, s));
                                assert(s[i as int] == d);
                                lemma_assign_keeps_reaches(bpre, s, d, row as int, col as int);
                            }
                            if board_exhausted(pass0) {
                                let j = choose|j: int|
                                    i <= j < 81 && (#[trigger] bpre[j]).val == 0 && cell_no_cands(
                                        bpre[j],
                                    );
                                assert(self@[j].val == 0 && cell_no_cands(self@[j]));
                            }
                        }
                    }
                }
                i += 1;
            }
            // The board is full: solved.
            if !has_empty {
                proof {
                    assert(board_complete(self@));
                    if board_exhausted(pass0) {
                        let j = choose|j: int|
                            81 <= j < 81 && (#[trigger] self@[j]).val == 0 && cell_no_cands(
                                self@[j],
                            );
                        assert(false);
                    }
                }
                return true;
            }
            // A whole pass found nothing to assign: stuck.
            if !has_changes {
                return false;
            }
        }
    }
}

impl SudokuBoard {
    /// The board as nine lines of nine digit characters, rows separated by
    /// a newline; 0 stands for a still-unknown cell.
    #[verifier::loop_isolation(false)]
    pub fn render(&self) -> (s: String)
        requires
            self@.len() == 81,
            forall|i: int| 0 <= i < 81 ==> (#[trigger] self@[i]).val <= 9,
        ensures
            s@.len() == 89,
            forall|k: int| 0 <= k < 89 ==> #[trigger] s@[k] == render_char_at(self@, k),
    {
        let mut s = String::new();
        let mut r: usize = 0;
        while r < 9
            invariant
                r <= 9,
                s@.len() == if r < 9 {
                    (r * 10) as int
                } else {
                    89int
                },
                forall|k: int| 0 <= k < s@.len() ==> #[trigger] s@[k] == render_char_at(self@, k),
            decreases 9 - r,
        {
            let mut c: usize = 0;
            while c < 9
                invariant
                    c <= 9,
                    r < 9,
                    s@.len() == r * 10 + c,
                    forall|k: int|
                        0 <= k < s@.len() ==> #[trigger] s@[k] == render_char_at(self@, k),
                decreases 9 - c,
            {
                let p = self.board[r * 9 + c];
                proof {
                    assert(p@ == self@[r * 9 + c]);
                }
                s.append(digit_str(p.val));
                proof {
                    let k = r * 10 + c;
                    assert(k % 10 == c && k / 10 == r);
                    assert(s@[k as int] == render_char_at(self@, k as int));
                }
                c += 1;
            }
            if r < 8 {
                proof {
                    reveal_strlit("\n");
                }
                s.append("\n");
                proof {
                    let k = r * 10 + 9;
                    assert(k % 10 == 9);
                    assert(s@[k as int] == render_char_at(self@, k as int));
                }
            }
            r += 1;
        }
        s
    }
}

impl vstd::std_specs::cmp::PartialEqSpecImpl<[[u32; 9]; 9]> for SudokuBoard {
    open spec fn obeys_eq_spec() -> bool {
        true
    }

    open spec fn eq_spec(&self, other: &[[u32; 9]; 9]) -> bool {
        self@.len() == 81 && forall|i: int|
            0 <= i < 81 ==> (#[trigger] self@[i]).val == gval(other.deep_view(), i)
    }
}

impl PartialEq<[[u32; 9]; 9]> for SudokuBoard {
    /// Elementwise comparison of the board's values against a raw grid.
    #[verifier::loop_isolation(false)]
    fn eq(&self, other: &[[u32; 9]; 9]) -> (r: bool) {
        if self.board.len() != 81 {
            return false;
        }
        let ghost g = other.deep_view();
        let mut i: usize = 0;
        while i < 81
            invariant
                i <= 81,
                self@.len() == 81,
                forall|j: int| 0 <= j < i ==> (#[trigger] self@[j]).val == gval(g, j),
            decreases 81 - i,
        {
            let row = i / 9;
            let col = i % 9;
            proof {
                assert(row_of(i as int) == row && col_of(i as int) == col);
                assert(other.deep_view()[row as int][col as int] == other@[row as int]@[col as int]);
            }
            if self.board[i].val != other[row][col] {
                proof {
                    assert(self@[i as int].val != gval(g, i as int));
                }
                return false;
            }
            i += 1;
        }
        true
    }
}

/// What one forced assignment does to a well-formed board: it stays
/// well-formed, keeps every earlier assignment, preserves consistency,
/// fills exactly one cell, and keeps every dead cell dead.
pub proof fn lemma_assign(b: Seq<CellModel>, d: u32, r: int, c: int)
    requires
        board_wf(b),
        0 <= r < 9,
        0 <= c < 9,
        b[r * 9 + c].val == 0,
        b[r * 9 + c].cands.contains(d),
    ensures
        1 <= d <= 9,
        board_wf(spec_set(b, d, r, c)),
        board_extends(b, spec_set(b, d, r, c)),
        board_consistent(b) ==> board_consistent(spec_set(b, d, r, c)),
        count_empty(spec_set(b, d, r, c)) + 1 == count_empty(b),
        spec_set(b, d, r, c)[r * 9 + c].val == d,
        forall|i: int|
            0 <= i < 81 && i != r * 9 + c ==> (#[trigger] spec_set(b, d, r, c)[i]).val == b[i].val,
        forall|i: int|
            0 <= i < 81 && (#[trigger] b[i]).val == 0 && cell_no_cands(b[i]) ==> spec_set(
                b,
                d,
                r,
                c,
            )[i].val == 0 && cell_no_cands(spec_set(b, d, r, c)[i]),
        cands_subset(spec_set(b, d, r, c), b),
        assigned_from(b, spec_set(b, d, r, c)),
{
    let t = r * 9 + c;
    let nb = spec_set(b, d, r, c);
    assert(row_of(t) == r && col_of(t) == c);
    assert forall|i: int, dd: u32|
        0 <= i < 81 && #[trigger] nb[i].cands.contains(dd) implies b[i].cands.contains(dd) && i != t
        && (shares_unit(i, t) ==> dd != d) by {}
    assert(board_wf(nb)) by {
        assert forall|i: int, j: int, dd: u32|
            #![trigger nb[i].cands.contains(dd), nb[j].val]
            0 <= i < 81 && 0 <= j < 81 && j != i && shares_unit(i, j) && nb[i].cands.contains(
                dd,
            ) implies nb[j].val != dd by {
            assert(b[i].cands.contains(dd));
            if j == t {
                assert(shares_unit(i, t));
                assert(dd != d);
            } else {
                assert(nb[j].val == b[j].val);
                assert(b[j].val != dd);
            }
        }
    }
    if board_consistent(b) {
        assert forall|i: int, j: int|
            #![trigger nb[i].val, nb[j].val]
            0 <= i < 81 && 0 <= j < 81 && i != j && shares_unit(i, j) && nb[i].val
                != 0 implies nb[i].val != nb[j].val by {
            if i == t {
                assert(b[t].cands.contains(d) && shares_unit(t, j) && j != t);
                assert(b[j].val != d);
            } else if j == t {
                assert(b[t].cands.contains(d) && shares_unit(t, i) && i != t);
                assert(b[i].val != d);
            } else {
                assert(nb[i].val == b[i].val && nb[j].val == b[j].val);
            }
        }
    }
    assert forall|i: int| 0 <= i < 81 && i != t implies ((#[trigger] b[i]).val == 0 <==> nb[i].val
        == 0) by {}
    lemma_count_empty_fill(b, nb, t);
    assert forall|i: int|
        0 <= i < 81 && (#[trigger] b[i]).val == 0 && cell_no_cands(b[i]) implies nb[i].val == 0
        && cell_no_cands(nb[i]) by {
        assert(!b[i].cands.contains(d));
        assert(i != t);
    }
}

/// A row hidden single is the digit the solution must place there: in any
/// reachable full solution the digit appears somewhere in the row, and every
/// other cell of the row has either a fixed different value or no longer
/// has the digit as a candidate.
proof fn lemma_hidden_row_sound(b: Seq<CellModel>, s: Seq<u32>, row: int, col: int, d: u32)
    requires
        board_wf(b),
        solution_values(s),
        reaches(b, s),
        0 <= row < 9,
        0 <= col < 9,
        b[row * 9 + col].val == 0,
        b[row * 9 + col].cands.contains(d),
        forall|x: int| 0 <= x < 9 && x != col ==> !(#[trigger] b[row * 9 + x]).cands.contains(d),
    ensures
        s[row * 9 + col] == d,
{
    let me = row * 9 + col;
    assert(1 <= d <= 9);
    assert(row_of(me) == row && col_of(me) == col);
    lemma_solution_row_has(s, me, d);
    let j = choose|j: int| 0 <= j < 81 && row_of(j) == row_of(me) && #[trigger] s[j] == d;
    if j != me {
        assert(shares_unit(me, j));
        let x = col_of(j);
        assert(j == row * 9 + x);
        if b[j].val != 0 {
            assert(s[j] == b[j].val);
            assert(b[j].val != d);
        } else {
            assert(b[j].cands.contains(s[j]));
        }
        assert(false);
    }
}

/// The column counterpart of `lemma_hidden_row_sound`.
proof fn lemma_hidden_col_sound(b: Seq<CellModel>, s: Seq<u32>, row: int, col: int, d: u32)
    requires
        board_wf(b),
        solution_values(s),
        reaches(b, s),
        0 <= row < 9,
        0 <= col < 9,
        b[row * 9 + col].val == 0,
        b[row * 9 + col].cands.contains(d),
        forall|y: int| 0 <= y < 9 && y != row ==> !(#[trigger] b[y * 9 + col]).cands.contains(d),
    ensures
        s[row * 9 + col] == d,
{
    let me = row * 9 + col;
    assert(1 <= d <= 9);
    assert(row_of(me) == row && col_of(me) == col);
    lemma_solution_col_has(s, me, d);
    let j = choose|j: int| 0 <= j < 81 && col_of(j) == col_of(me) && #[trigger] s[j] == d;
    if j != me {
        assert(shares_unit(me, j));
        let y = row_of(j);
        assert(j == y * 9 + col);
        if b[j].val != 0 {
            assert(s[j] == b[j].val);
            assert(b[j].val != d);
        } else {
            assert(b[j].cands.contains(s[j]));
        }
        assert(false);
    }
}

/// The box counterpart of `lemma_hidden_row_sound`; only unassigned box
/// cells are checked, a fixed one cannot hold the digit anyway.
proof fn lemma_hidden_box_sound(b: Seq<CellModel>, s: Seq<u32>, row: int, col: int, d: u32)
    requires
        board_wf(b),
        solution_values(s),
        reaches(b, s),
        0 <= row < 9,
        0 <= col < 9,
        b[row * 9 + col].val == 0,
        b[row * 9 + col].cands.contains(d),
        forall|m: int|
            0 <= m < 81 && in_box_of(m, row, col) && m != row * 9 + col && (#[trigger] b[m]).val
                == 0 ==> !b[m].cands.contains(d),
    ensures
        s[row * 9 + col] == d,
{
    let me = row * 9 + col;
    assert(1 <= d <= 9);
    assert(row_of(me) == row && col_of(me) == col);
    lemma_solution_box_has(s, me, d);
    let j = choose|j: int|
        0 <= j < 81 && row_of(j) / 3 == row_of(me) / 3 && col_of(j) / 3 == col_of(me) / 3
            && #[trigger] s[j] == d;
    if j != me {
        assert(shares_unit(me, j));
        assert(in_box_of(j, row, col));
        if b[j].val != 0 {
            assert(s[j] == b[j].val);
            assert(b[j].val != d);
        } else {
            assert(b[j].cands.contains(s[j]));
        }
        assert(false);
    }
}

} // verus!
