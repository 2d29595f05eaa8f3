//! Selection of the measurements that enter the position estimate, and
//! the rules that steer its iteration.
//!
//! Distances are binary64 values kept as bit patterns. For patterns with
//! a clear sign bit the numeric order of the patterns is the order of the
//! values, and a pattern is finite exactly when its exponent field is not
//! all ones; both facts are used here on integers. The arithmetic of the
//! estimate itself is the caller's.

use crate::configuration::{anchor_coordinate, anchor_table, AnchorCoordinate, ANCHOR_COUNT};
use vstd::prelude::*;

verus! {

/// The sign bit of a binary64 pattern.
pub const SIGN_BIT: u64 = 0x8000_0000_0000_0000;

/// The smallest magnitude pattern that is not finite: positive infinity.
pub const FIRST_NON_FINITE: u64 = 0x7FF0_0000_0000_0000;

/// The pattern of the largest distance taken as measured: 10^6.
pub const RANGE_LIMIT: u64 = 0x412E_8480_0000_0000;

/// The iteration cap of the position estimate.
pub const MAX_ITERATIONS: usize = 45;

/// The pattern of 10^-3: the sum of squared residuals below which the
/// estimate has converged.
pub const TOLERANCE: u64 = 0x3F50_624D_D2F1_A9FC;

/// The pattern of 10^-6: the distance to an anchor below which the
/// direction to it is scaled by this value instead of the distance.
pub const DISTANCE_FLOOR: u64 = 0x3EB0_C6F7_A0B5_ED8D;

/// The pattern of 10^-9: singular values below it are left out of the
/// pseudo-inverse.
pub const SINGULAR_CUTOFF: u64 = 0x3E11_2E0B_E826_D695;

/// Whether the value with pattern `bits` is less than the positive finite
/// value with pattern `limit`: it is a number, and negative or of a
/// smaller pattern.
pub open spec fn is_below(bits: u64, limit: u64) -> bool {
    if bits < SIGN_BIT {
        bits < limit
    } else {
        bits - SIGN_BIT <= FIRST_NON_FINITE
    }
}

/// What follows an iteration of the estimate.
#[derive(Debug, PartialEq, Eq, Clone, Copy, Structural)]
pub enum SolverStep {
    /// Run another iteration.
    Iterate,
    /// Return the current guess.
    Finish,
}

/// What follows the iteration that was the `completed`-th and left the
/// sum of squared residuals `residual`: the estimate finishes once it has
/// converged or the cap is reached, converged or not.
pub open spec fn step_after(completed: usize, residual: u64) -> SolverStep {
    if is_below(residual, TOLERANCE) || completed >= MAX_ITERATIONS {
        SolverStep::Finish
    } else {
        SolverStep::Iterate
    }
}

/// The divisor that turns the displacement to an anchor at distance
/// `distance` into its row of the Jacobian: the distance, or the floor
/// where the distance is below it.
pub open spec fn divisor_for(distance: u64) -> u64 {
    if is_below(distance, DISTANCE_FLOOR) {
        DISTANCE_FLOOR
    } else {
        distance
    }
}

/// Whether the distance with pattern `bits` counts as measured: it is
/// finite and not greater than 10^6.
pub open spec fn is_measured(bits: u64) -> bool {
    if bits < SIGN_BIT {
        bits <= RANGE_LIMIT
    } else {
        bits - SIGN_BIT < FIRST_NON_FINITE
    }
}

/// A distance together with the anchor it was measured against.
#[derive(Debug, PartialEq, Eq, Clone, Copy, Structural)]
pub struct Measurement {
    pub slot: usize,
    pub anchor: AnchorCoordinate,
    pub range: u64,
}

/// Whether `m` is the measurement that `ranges` holds for slot `m.slot`.
pub open spec fn taken_from(m: Measurement, ranges: Seq<u64>) -> bool {
    &&& m.slot < ANCHOR_COUNT
    &&& m.anchor == anchor_table()[m.slot as int]
    &&& m.range == ranges[m.slot as int]
    &&& is_measured(m.range)
}

/// Whether `picked` holds exactly the measured distances of `ranges`
/// among the slots below `upto`, by rising slot.
pub open spec fn selects(picked: Seq<Measurement>, ranges: Seq<u64>, upto: int) -> bool {
    &&& forall|k: int| 0 <= k < picked.len() ==> taken_from(#[trigger] picked[k], ranges)
    &&& forall|k: int| 0 <= k < picked.len() ==> (#[trigger] picked[k]).slot < upto
    &&& forall|j: int, k: int| 0 <= j < k < picked.len() ==> picked[j].slot < picked[k].slot
    &&& forall|i: int|
        0 <= i < upto && is_measured(#[trigger] ranges[i]) ==> exists|k: int|
            0 <= k < picked.len() && picked[k].slot == i
}

/// Tells whether the distance with pattern `bits` counts as measured.
pub fn range_is_measured(bits: u64) -> (b: bool)
    ensures
        b == is_measured(bits),
{
    if bits < SIGN_BIT {
        bits <= RANGE_LIMIT
    } else {
        bits - SIGN_BIT < FIRST_NON_FINITE
    }
}

/// Tells whether the value with pattern `bits` is less than the positive
/// finite value with pattern `limit`.
pub fn is_less(bits: u64, limit: u64) -> (b: bool)
    ensures
        b == is_below(bits, limit),
{
    if bits < SIGN_BIT {
        bits < limit
    } else {
        bits - SIGN_BIT <= FIRST_NON_FINITE
    }
}

/// Decides what follows the iteration that was the `completed`-th and
/// left the sum of squared residuals `residual`.
pub fn after_iteration(completed: usize, residual: u64) -> (step: SolverStep)
    ensures
        step == step_after(completed, residual),
{
    if is_less(residual, TOLERANCE) || completed >= MAX_ITERATIONS {
        SolverStep::Finish
    } else {
        SolverStep::Iterate
    }
}

/// The divisor for the Jacobian row of an anchor at distance `distance`.
pub fn jacobian_divisor(distance: u64) -> (d: u64)
    ensures
        d == divisor_for(distance),
{
    if is_less(distance, DISTANCE_FLOOR) {
        DISTANCE_FLOOR
    } else {
        distance
    }
}

/// The estimate never runs more iterations than the cap allows.
pub proof fn lemma_iteration_cap(completed: usize, residual: u64)
    requires
        completed >= MAX_ITERATIONS,
    ensures
        step_after(completed, residual) == SolverStep::Finish,
{
}

/// Pairs every measured distance with its anchor, by rising slot.
/// Without any measured distance there is nothing to estimate from.
pub fn select_measurements(ranges: &[u64; 8]) -> (r: Option<Vec<Measurement>>)
    ensures
        r.is_none() <==> forall|i: int| 0 <= i < ANCHOR_COUNT ==> !is_measured(#[trigger] ranges@[i]),
        match r {
            Some(picked) => picked@.len() > 0 && selects(picked@, ranges@, ANCHOR_COUNT as int),
            None => true,
        },
{
    let mut picked: Vec<Measurement> = Vec::new();
    let mut i: usize = 0;
    while i < ANCHOR_COUNT
        invariant
            i <= ANCHOR_COUNT,
            selects(picked@, ranges@, i as int),
        decreases ANCHOR_COUNT - i,
    {
        let bits = ranges[i];
        if range_is_measured(bits) {
            let ghost before = picked@;
            picked.push(Measurement { slot: i, anchor: anchor_coordinate(i), range: bits });
            proof {
                assert forall|s: int|
                    0 <= s < i + 1 && is_measured(#[trigger] ranges@[s]) implies exists|k: int|
                    0 <= k < picked@.len() && picked@[k].slot == s by {
                    if s < i {
                        let k = choose|k: int| 0 <= k < before.len() && before[k].slot == s;
                        assert(picked@[k].slot == s);
                    } else {
                        assert(picked@[before.len() as int].slot == s);
                    }
                }
            }
        }
        i += 1;
    }
    if picked.len() == 0 {
        None
    } else {
        assert(is_measured(ranges@[picked@[0].slot as int]));
        Some(picked)
    }
}

} // verus!
