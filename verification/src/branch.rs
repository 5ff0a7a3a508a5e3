//! The branching rule: among the unassigned tests, pick the one whose LP
//! relaxation value is closest to 1, breaking ties by lowest index. Fixing a
//! variable already near 1 tends to change the LP objective least, which
//! produces tighter child bounds and earlier pruning.

use vstd::prelude::*;

use crate::common::FixedStatus;
use crate::common::SCALE;

verus! {

/// Distance of a fixed-point relaxation value from 1 (that is, from SCALE).
pub open spec fn branch_dist(v: u64) -> int {
    if v <= SCALE {
        SCALE - v
    } else {
        v - SCALE
    }
}

/// Some test is still unassigned.
pub open spec fn has_unassigned(fixed: Seq<FixedStatus>) -> bool {
    exists|i: int| 0 <= i < fixed.len() && fixed[i] is Unassigned
}

/// The branching rule chose index `b`: it is unassigned, its value is
/// closest to 1 among the unassigned, and no smaller unassigned index is as
/// close.
pub open spec fn is_branch_choice(fixed: Seq<FixedStatus>, vals: Seq<u64>, b: int) -> bool {
    &&& 0 <= b < fixed.len()
    &&& fixed[b] is Unassigned
    &&& forall|k: int|
        0 <= k < fixed.len() && fixed[k] is Unassigned ==> branch_dist(vals[b]) <= branch_dist(
            #[trigger] vals[k],
        )
    &&& forall|k: int|
        0 <= k < b && fixed[k] is Unassigned ==> branch_dist(vals[b]) < branch_dist(
            #[trigger] vals[k],
        )
}

/// Select the unassigned test to branch on, or report that none is left.
pub fn get_branch_var(fixed: &Vec<FixedStatus>, lp_assignments: &Vec<u64>) -> (r: Option<usize>)
    requires
        fixed@.len() == lp_assignments@.len(),
    ensures
        match r {
            Some(b) => is_branch_choice(fixed@, lp_assignments@, b as int),
            None => !has_unassigned(fixed@),
        },
{
    let mut best: Option<usize> = None;
    let mut i: usize = 0;
    while i < fixed.len()
        invariant
            i <= fixed@.len(),
            fixed@.len() == lp_assignments@.len(),
            match best {
                Some(b) => {
                    &&& b < i
                    &&& fixed@[b as int] is Unassigned
                    &&& forall|k: int|
                        0 <= k < i && fixed@[k] is Unassigned ==> branch_dist(
                            lp_assignments@[b as int],
                        ) <= branch_dist(#[trigger] lp_assignments@[k])
                    &&& forall|k: int|
                        0 <= k < b && fixed@[k] is Unassigned ==> branch_dist(
                            lp_assignments@[b as int],
                        ) < branch_dist(#[trigger] lp_assignments@[k])
                },
                None => forall|k: int| 0 <= k < i ==> !(#[trigger] fixed@[k] is Unassigned),
            },
        decreases fixed@.len() - i,
    {
        if matches!(fixed[i], FixedStatus::Unassigned) {
            let v = lp_assignments[i];
            let dist_i: u64 = if v <= SCALE {
                SCALE - v
            } else {
                v - SCALE
            };
            match best {
                None => {
                    best = Some(i);
                },
                Some(b) => {
                    let w = lp_assignments[b];
                    let dist_b: u64 = if w <= SCALE {
                        SCALE - w
                    } else {
                        w - SCALE
                    };
                    if dist_i < dist_b {
                        best = Some(i);
                    }
                },
            }
        }
        i = i + 1;
    }
    best
}

} // verus!
