//! A single grid position.
//!
//! `SudokuPos` stores a value (0 = unknown) and the candidate digits still
//! possible for the cell, one presence flag per digit 1..=9.  Its view is a
//! `CellModel`, whose candidate set abstracts the flag array.

use vstd::prelude::*;

use crate::model::CellModel;
use crate::model::cell_no_cands;
use crate::model::cell_single;
use crate::model::full_cands;

verus! {

/// One cell of the grid: a fixed digit (`val` nonzero) or a set of
/// candidate digits.
#[derive(Clone, Copy, Debug)]
pub struct SudokuPos {
    /// The cell's value; nonzero means the digit is fixed.
    pub val: u32,
    /// `digits[d - 1]` records whether digit `d` is still a candidate.
    pub digits: [bool; 9],
}

impl View for SudokuPos {
    type V = CellModel;

    open spec fn view(&self) -> CellModel {
        CellModel {
            val: self.val,
            cands: Set::new(|d: u32| 1 <= d <= 9 && self.digits[d as int - 1]),
        }
    }
}

impl vstd::std_specs::cmp::PartialEqSpecImpl<u32> for SudokuPos {
    open spec fn obeys_eq_spec() -> bool {
        true
    }

    open spec fn eq_spec(&self, other: &u32) -> bool {
        self.val == *other
    }
}

impl PartialEq<u32> for SudokuPos {
    /// A position equals a digit when its value does.
    fn eq(&self, r: &u32) -> bool {
        self.val == *r
    }
}

impl SudokuPos {
    /// A new position: value 0 leaves every digit as a candidate, a nonzero
    /// value fixes the cell with no candidates.
    pub fn new_with(val: u32) -> (r: Self)
        ensures
            r.val == val,
            r@.cands == if val == 0 {
                full_cands()
            } else {
                Set::<u32>::empty()
            },
    {
        if val == 0 {
            let r = SudokuPos { val, digits: [true, true, true, true, true, true, true, true, true] };
            proof {
                assert(r@.cands =~= full_cands());
            }
            r
        } else {
            let r = SudokuPos {
                val,
                digits: [false, false, false, false, false, false, false, false, false],
            };
            proof {
                assert(r@.cands =~= Set::<u32>::empty());
            }
            r
        }
    }

    /// Whether digit `d` is still a candidate here.
    pub fn has_candidate(&self, d: u32) -> (r: bool)
        requires
            1 <= d <= 9,
        ensures
            r == self@.cands.contains(d),
    {
        self.digits[(d - 1) as usize]
    }

    /// Drop digit `d` from the candidates; the value is untouched.
    pub fn remove_candidate(&mut self, d: u32)
        requires
            1 <= d <= 9,
        ensures
            final(self).val == old(self).val,
            final(self)@.cands == old(self)@.cands.remove(d),
    {
        self.digits[(d - 1) as usize] = false;
        proof {
            assert(self@.cands =~= old(self)@.cands.remove(d));
        }
    }

    /// Drop every candidate; the value is untouched.
    pub fn clear_candidates(&mut self)
        ensures
            final(self).val == old(self).val,
            final(self)@.cands == Set::<u32>::empty(),
    {
        self.digits = [false, false, false, false, false, false, false, false, false];
        proof {
            assert(self@.cands =~= Set::<u32>::empty());
        }
    }

    /// Whether no candidate is left.
    pub fn no_candidates(&self) -> (r: bool)
        ensures
            r == cell_no_cands(self@),
    {
        let mut i: usize = 0;
        while i < 9
            invariant
                i <= 9,
                forall|k: int| 0 <= k < i ==> !self.digits[k],
            decreases 9 - i,
        {
            if self.digits[i] {
                assert(self@.cands.contains((i + 1) as u32));
                return false;
            }
            i += 1;
        }
        true
    }

    /// The sole candidate of the cell, if it has exactly one.
    pub fn single_candidate(&self) -> (r: Option<u32>)
        ensures
            match r {
                Some(d) => cell_single(self@, d),
                None => forall|d: u32| !cell_single(self@, d),
            },
    {
        let mut count: u32 = 0;
        let mut found: u32 = 0;
        let ghost mut w1: int = 0;
        let ghost mut w2: int = 0;
        let mut i: usize = 0;
        while i < 9
            invariant
                i <= 9,
                count <= i,
                count == 0 ==> forall|k: int| 0 <= k < i ==> !self.digits[k],
                count == 1 ==> 1 <= found <= i && self.digits[found as int - 1] && forall|k: int|
                    0 <= k < i && k != found as int - 1 ==> !self.digits[k],
                count >= 2 ==> 0 <= w1 < w2 < i && self.digits[w1] && self.digits[w2],
            decreases 9 - i,
        {
            if self.digits[i] {
                proof {
                    if count == 1 {
                        w1 = found - 1;
                        w2 = i as int;
                    }
                }
                count = count + 1;
                found = (i + 1) as u32;
            }
            i += 1;
        }
        if count == 1 {
            assert(self@.cands.contains(found));
            Some(found)
        } else {
            proof {
                if count >= 2 {
                    let d1 = (w1 + 1) as u32;
                    let d2 = (w2 + 1) as u32;
                    assert(self@.cands.contains(d1));
                    assert(self@.cands.contains(d2));
                }
            }
            None
        }
    }

    /// The candidates of the cell, in ascending order.
    pub fn candidates(&self) -> (r: Vec<u32>)
        ensures
            forall|a: int, b: int| 0 <= a < b < r@.len() ==> r@[a] < r@[b],
            forall|d: u32| self@.cands.contains(d) <==> r@.contains(d),
    {
        let mut r: Vec<u32> = Vec::new();
        let mut i: usize = 0;
        while i < 9
            invariant
                i <= 9,
                forall|a: int, b: int| 0 <= a < b < r@.len() ==> r@[a] < r@[b],
                forall|a: int| 0 <= a < r@.len() ==> 1 <= #[trigger] r@[a] <= i,
                forall|d: u32| 1 <= d <= i && self.digits[d as int - 1] ==> r@.contains(d),
                forall|a: int| 0 <= a < r@.len() ==> self@.cands.contains(r@[a]),
            decreases 9 - i,
        {
            if self.digits[i] {
                let d = (i + 1) as u32;
                let ghost prev = r@;
                r.push(d);
                proof {
                    assert forall|dd: u32|
                        1 <= dd <= i + 1 && self.digits[dd as int - 1] implies r@.contains(dd) by {
                        if dd == d {
                            assert(r@[r@.len() - 1] == dd);
                        } else {
                            assert(prev.contains(dd));
                            let a = choose|a: int| 0 <= a < prev.len() && prev[a] == dd;
                            assert(r@[a] == dd);
                        }
                    }
                }
            }
            i += 1;
        }
        proof {
            assert forall|d: u32| self@.cands.contains(d) implies r@.contains(d) by {}
            assert forall|d: u32| r@.contains(d) implies self@.cands.contains(d) by {
                let a = choose|a: int| 0 <= a < r@.len() && r@[a] == d;
            }
        }
        r
    }
}

} // verus!
