//! Search over boards that propagation alone leaves stuck.
//!
//! `resolve` first runs constraint propagation; a completed board is
//! reported, an exhausted one is pruned, and a stuck one is branched: the
//! first unassigned cell at or after the previous branch point is guessed
//! with each of its candidate digits in turn, each guess explored on its own
//! deep copy of the board.

use vstd::prelude::*;

use crate::board::SudokuBoard;
use crate::board::lemma_assign;
use crate::model::board_complete;
use crate::model::board_consistent;
use crate::model::board_extends;
use crate::model::board_wf;
use crate::model::cell_no_cands;
use crate::model::col_of;
use crate::model::count_empty;
use crate::model::lemma_assign_keeps_reaches;
use crate::model::lemma_extends_trans;
use crate::model::reaches;
use crate::model::row_of;
use crate::model::same_vals;
use crate::model::solution_values;
use crate::model::vals_match;
use crate::model::vals_of;

verus! {

/// A completed grid that answers the puzzle `b`: well-formed, full,
/// consistent, and its values form a solution that was reachable from `b`
/// through the candidate sets.  In particular no grid answers an exhausted
/// board.
pub open spec fn solves(b: Seq<crate::model::CellModel>, s: Seq<crate::model::CellModel>) -> bool {
    &&& board_wf(s)
    &&& board_complete(s)
    &&& board_consistent(s)
    &&& board_extends(b, s)
    &&& solution_values(vals_of(s))
    &&& reaches(b, vals_of(s))
}

/// Search from `board`, appending every completed grid found to
/// `solutions`; `from` is the cell index the previous guess was made at
/// (0 for a fresh search), and bounds where branching may continue.  With
/// `all` false the search stops as soon as one solution is recorded.
///
/// Every recorded grid answers the puzzle.  The search is also complete
/// and free of repeats: provided no unassigned cell precedes `from`, at
/// least one grid is recorded whenever a reachable solution exists, with
/// `all` every reachable solution is recorded, and no two recorded grids
/// hold the same values.
#[verifier::loop_isolation(false)]
#[verifier::rlimit(60)]
pub fn resolve(board: &SudokuBoard, from: usize, all: bool, solutions: &mut Vec<SudokuBoard>)
    requires
        board_wf(board@),
        board_consistent(board@),
    ensures
        final(solutions)@.len() >= old(solutions)@.len(),
        forall|k: int|
            0 <= k < old(solutions)@.len() ==> final(solutions)@[k] == old(solutions)@[k],
        forall|k: int|
            old(solutions)@.len() <= k < final(solutions)@.len() ==> solves(
                board@,
                (#[trigger] final(solutions)@[k])@,
            ),
        !all && old(solutions)@.len() > 0 ==> final(solutions)@ == old(solutions)@,
        !all ==> final(solutions)@.len() <= 1 || final(solutions)@.len() == old(solutions)@.len(),
        forall|s: Seq<u32>|
            solution_values(s) && #[trigger] reaches(board@, s) && old(solutions)@.len() == 0 && (
            forall|p: int| 0 <= p < from ==> (#[trigger] board@[p]).val != 0)
                ==> final(solutions)@.len() >= 1,
        forall|s: Seq<u32>|
            all && solution_values(s) && #[trigger] reaches(board@, s) && (forall|p: int|
                0 <= p < from ==> (#[trigger] board@[p]).val != 0) ==> exists|k: int|
                old(solutions)@.len() <= k < final(solutions)@.len() && vals_match(
                    (#[trigger] final(solutions)@[k])@,
                    s,
                ),
        forall|k1: int, k2: int|
            #![trigger final(solutions)@[k1], final(solutions)@[k2]]
            old(solutions)@.len() <= k1 < k2 < final(solutions)@.len() ==> !same_vals(
                final(solutions)@[k1]@,
                final(solutions)@[k2]@,
            ),
    decreases count_empty(board@),
{
    // Stop-after-first: an already recorded solution ends this branch.
    if !all && solutions.len() > 0 {
        return ;
    }
    let mut b = board.clone();
    let solved = b.solve();
    if solved {
        let ghost bv = b@;
        solutions.push(b);
        proof {
            assert forall|s: Seq<u32>|
                solution_values(s) && #[trigger] reaches(board@, s) implies vals_match(
                (solutions@[solutions@.len() - 1])@,
                s,
            ) by {
                assert(reaches(bv, s));
                assert(board_complete(bv));
            }
        }
        return ;
    }
    if b.exhausted() {
        // Dead end: prune silently.  No solution was reachable from here.
        proof {
            assert forall|s: Seq<u32>|
                solution_values(s) && #[trigger] reaches(board@, s) implies false by {
                assert(reaches(b@, s));
                let j = choose|j: int|
                    0 <= j < 81 && (#[trigger] b@[j]).val == 0 && cell_no_cands(b@[j]);
                assert(b@[j].cands.contains(s[j]));
            }
        }
        return ;
    }
    // Stuck but not exhausted: branch on the first unassigned cell at or
    // after the previous branch point.
    let ghost sols0 = solutions@;
    let mut i = from;
    while i < 81
        invariant
            from <= i,
            solutions@ == sols0,
            forall|p2: int| from <= p2 < i ==> (#[trigger] b@[p2]).val != 0,
        decreases 81 - i,
    {
        let row = i / 9;
        let col = i % 9;
        proof {
            assert(row_of(i as int) == row && col_of(i as int) == col);
        }
        let p = *b.get(row, col);
        if p.val == 0 {
            let cands = p.candidates();
            proof {
                assert forall|s: Seq<u32>|
                    solution_values(s) && #[trigger] reaches(b@, s) implies exists|t2: int|
                    0 <= t2 < cands@.len() && cands@[t2] == s[i as int] by {
                    assert(b@[i as int].cands.contains(s[i as int]));
                    assert(cands@.contains(s[i as int]));
                    let a = choose|a: int| 0 <= a < cands@.len() && cands@[a] == s[i as int];
                }
            }
            let mut t: usize = 0;
            while t < cands.len()
                invariant
                    solutions@.len() >= sols0.len(),
                    forall|k: int| 0 <= k < sols0.len() ==> solutions@[k] == sols0[k],
                    forall|k: int|
                        sols0.len() <= k < solutions@.len() ==> solves(
                            board@,
                            (#[trigger] solutions@[k])@,
                        ),
                    !all ==> solutions@.len() <= 1,
                    (forall|p2: int| 0 <= p2 < from ==> (#[trigger] board@[p2]).val != 0)
                        && sols0.len() == 0 ==> (solutions@.len() >= 1 || forall|s: Seq<u32>|
                        solution_values(s) && #[trigger] reaches(b@, s) ==> exists|t2: int|
                            t <= t2 < cands@.len() && cands@[t2] == s[i as int]),
                    forall|s: Seq<u32>|
                        all && solution_values(s) && #[trigger] reaches(b@, s) && (forall|p2: int|
                            0 <= p2 < from ==> (#[trigger] board@[p2]).val != 0) ==> (exists|k: int|
                            sols0.len() <= k < solutions@.len() && vals_match(
                                (#[trigger] solutions@[k])@,
                                s,
                            )) || (exists|t2: int|
                            t <= t2 < cands@.len() && cands@[t2] == s[i as int]),
                    forall|k: int|
                        sols0.len() <= k < solutions@.len() ==> exists|t2: int|
                            0 <= t2 < t && (#[trigger] solutions@[k])@[i as int].val == cands@[t2],
                    forall|k1: int, k2: int|
                        #![trigger solutions@[k1], solutions@[k2]]
                        sols0.len() <= k1 < k2 < solutions@.len() ==> !same_vals(
                            solutions@[k1]@,
                            solutions@[k2]@,
                        ),
                decreases cands@.len() - t,
            {
                let d = cands[t];
                proof {
                    assert(cands@.contains(cands@[t as int]));
                    assert(b@[i as int].cands.contains(d));
                    lemma_assign(b@, d, row as int, col as int);
                }
                let mut child = b.clone();
                child.set(d, row, col);
                let ghost before = solutions@;
                resolve(&child, i, all, solutions);
                proof {
                    assert(child@[i as int].val == d);
                    assert forall|k: int|
                        sols0.len() <= k < solutions@.len() implies solves(
                        board@,
                        (#[trigger] solutions@[k])@,
                    ) by {
                        if k < before.len() {
                            assert(solutions@[k] == before[k]);
                        } else {
                            assert(solves(child@, solutions@[k]@));
                            lemma_extends_trans(board@, b@, child@);
                            lemma_extends_trans(board@, child@, solutions@[k]@);
                        }
                    }
                    // Every grid this guess added carries the guessed digit
                    // at the branch cell.
                    assert forall|k: int|
                        sols0.len() <= k < solutions@.len() implies exists|t2: int|
                        0 <= t2 < t + 1 && (#[trigger] solutions@[k])@[i as int].val
                            == cands@[t2] by {
                        if k < before.len() {
                            assert(solutions@[k] == before[k]);
                            let t2 = choose|t2: int|
                                0 <= t2 < t && (#[trigger] before[k])@[i as int].val == cands@[t2];
                            assert(solutions@[k]@[i as int].val == cands@[t2]);
                        } else {
                            assert(board_extends(child@, solutions@[k]@));
                            assert(solutions@[k]@[i as int].val == d);
                            assert(cands@[t as int] == d);
                        }
                    }
                    // Grids added under different guesses differ at the
                    // branch cell; under the same guess the recursive call
                    // keeps them apart.
                    assert forall|k1: int, k2: int|
                        #![trigger solutions@[k1], solutions@[k2]]
                        sols0.len() <= k1 < k2 < solutions@.len() implies !same_vals(
                        solutions@[k1]@,
                        solutions@[k2]@,
                    ) by {
                        if k2 < before.len() {
                            assert(solutions@[k1] == before[k1] && solutions@[k2] == before[k2]);
                            assert(!same_vals(before[k1]@, before[k2]@));
                        } else if k1 < before.len() {
                            assert(solutions@[k1] == before[k1]);
                            let t2 = choose|t2: int|
                                0 <= t2 < t && (#[trigger] before[k1])@[i as int].val
                                    == cands@[t2];
                            assert(cands@[t2] < cands@[t as int]);
                            assert(board_extends(child@, solutions@[k2]@));
                            assert(solutions@[k2]@[i as int].val == d);
                        } else {
                            assert(!same_vals(solutions@[k1]@, solutions@[k2]@));
                        }
                    }
                    if (forall|p2: int| 0 <= p2 < from ==> (#[trigger] board@[p2]).val != 0)
                        && sols0.len() == 0 && before.len() == 0 && solutions@.len() == 0 {
                        // No solution appeared under this guess: any still
                        // reachable solution picks a later candidate.
                        assert forall|s: Seq<u32>|
                            solution_values(s) && #[trigger] reaches(b@, s) implies exists|t2: int|
                            t + 1 <= t2 < cands@.len() && cands@[t2] == s[i as int] by {
                            let t2 = choose|t2: int|
                                t <= t2 < cands@.len() && #[trigger] cands@[t2] == s[i as int];
                            if t2 == t {
                                lemma_assign_keeps_reaches(b@, s, d, row as int, col as int);
                                assert(reaches(child@, s));
                                assert forall|p2: int|
                                    0 <= p2 < i implies (#[trigger] child@[p2]).val != 0 by {
                                    assert(child@[p2].val == b@[p2].val);
                                    if p2 < from {
                                        assert((#[trigger] board@[p2]).val != 0);
                                    }
                                }
                                assert(false);
                            }
                        }
                    }
                    // With every solution wanted, a reachable one either
                    // was already recorded or keeps a later candidate.
                    assert forall|s: Seq<u32>|
                        all && solution_values(s) && #[trigger] reaches(b@, s) && (forall|p2: int|
                            0 <= p2 < from ==> (#[trigger] board@[p2]).val != 0) implies (exists|
                        k: int,
                    |
                        sols0.len() <= k < solutions@.len() && vals_match(
                            (#[trigger] solutions@[k])@,
                            s,
                        )) || (exists|t2: int|
                        t + 1 <= t2 < cands@.len() && cands@[t2] == s[i as int]) by {
                        if exists|k: int|
                            sols0.len() <= k < before.len() && vals_match(
                                (#[trigger] before[k])@,
                                s,
                            ) {
                            let k = choose|k: int|
                                sols0.len() <= k < before.len() && vals_match(
                                    (#[trigger] before[k])@,
                                    s,
                                );
                            assert(solutions@[k] == before[k]);
                            assert(vals_match(solutions@[k]@, s));
                        } else {
                            let t2 = choose|t2: int|
                                t <= t2 < cands@.len() && #[trigger] cands@[t2] == s[i as int];
                            if t2 == t {
                                lemma_assign_keeps_reaches(b@, s, d, row as int, col as int);
                                assert(reaches(child@, s));
                                assert forall|p2: int|
                                    0 <= p2 < i implies (#[trigger] child@[p2]).val != 0 by {
                                    assert(child@[p2].val == b@[p2].val);
                                    if p2 < from {
                                        assert((#[trigger] board@[p2]).val != 0);
                                    }
                                }
                                let k = choose|k: int|
                                    before.len() <= k < solutions@.len() && vals_match(
                                        (#[trigger] solutions@[k])@,
                                        s,
                                    );
                                assert(sols0.len() <= k < solutions@.len());
                            }
                        }
                    }
                }
                t += 1;
            }
            proof {
                assert forall|s: Seq<u32>|
                    solution_values(s) && #[trigger] reaches(board@, s) && sols0.len() == 0 && (
                forall|p2: int|
                    0 <= p2 < from ==> (#[trigger] board@[p2]).val != 0) implies solutions@.len()
                    >= 1 by {
                    assert(reaches(b@, s));
                }
                assert forall|s: Seq<u32>|
                    all && solution_values(s) && #[trigger] reaches(board@, s) && (forall|p2: int|
                        0 <= p2 < from ==> (#[trigger] board@[p2]).val != 0) implies exists|k: int|
                    sols0.len() <= k < solutions@.len() && vals_match(
                        (#[trigger] solutions@[k])@,
                        s,
                    ) by {
                    assert(reaches(b@, s));
                }
            }
            return ;
        }
        i += 1;
    }
    // No unassigned cell remains at or after the branch point; if none
    // precedes it either, the board would be complete, which `solve`
    // excluded, so no reachable solution is lost here.
    proof {
        assert forall|s: Seq<u32>|
            solution_values(s) && #[trigger] reaches(board@, s) && (forall|p2: int|
                0 <= p2 < from ==> (#[trigger] board@[p2]).val != 0) implies false by {
            assert(board_complete(b@)) by {
                assert forall|j: int| 0 <= j < 81 implies (#[trigger] b@[j]).val != 0 by {
                    if j < from {
                        assert(board@[j].val != 0);
                    }
                }
            }
        }
    }
}

/// The first unassigned cell at or after cell index `from`, in row-major
/// order, if any.
#[verifier::loop_isolation(false)]
pub fn find_free_from(board: &SudokuBoard, from: usize) -> (r: Option<(usize, usize)>)
    requires
        board@.len() == 81,
    ensures
        match r {
            Some(rc) => {
                &&& rc.0 < 9
                &&& rc.1 < 9
                &&& from <= rc.0 * 9 + rc.1
                &&& board@[rc.0 * 9 + rc.1].val == 0
                &&& forall|p: int|
                    from <= p < rc.0 * 9 + rc.1 ==> (#[trigger] board@[p]).val != 0
            },
            None => forall|p: int| from <= p < 81 ==> (#[trigger] board@[p]).val != 0,
        },
{
    let mut i = from;
    while i < 81
        invariant
            from <= i,
            forall|p: int| from <= p < i ==> (#[trigger] board@[p]).val != 0,
        decreases 81 - i,
    {
        let row = i / 9;
        let col = i % 9;
        if board.get(row, col).val == 0 {
            return Some((row, col));
        }
        i += 1;
    }
    None
}

} // verus!
