//! Tasks: one unit of simulated work, a `(cell, direction)` pair.

use vstd::prelude::*;

use crate::cell::Cell;
use crate::direction::Direction;

verus! {

/// Directions are spaced this far apart in the priority order; it must be at
/// least the total cell count, so cell and direction never mix.
pub const TASK_PRIORITY_STRIDE: u64 = 1000000;

/// One cell solved for one direction. `num_upwind` counts the upwind
/// dependencies still unsolved; the task becomes ready when it reaches zero.
#[derive(Clone, Copy, PartialEq, Eq, Structural, Debug)]
pub struct Task {
    pub cell: Cell,
    pub direction: Direction,
    pub processor_num: usize,
    pub num_upwind: usize,
}

impl Task {
    /// The rank a task takes in ready and receive queues: earlier
    /// directions first, then earlier cells. Greater values win, so the
    /// ordering runs opposite to the indices. The order is a fixed,
    /// deterministic choice so that identical inputs replay identically; it
    /// encodes no scheduling heuristic beyond that.
    pub open spec fn spec_priority(self) -> int {
        self.cell.global_index + self.direction.index * TASK_PRIORITY_STRIDE
    }

    /// Bounds under which the priority is computed exactly: fewer cells than
    /// the stride, and a direction index that keeps the product in `u64`.
    pub open spec fn priority_in_bounds(self) -> bool {
        self.cell.global_index < TASK_PRIORITY_STRIDE && self.direction.index <= u32::MAX
    }

    pub fn get_priority(&self) -> (r: u64)
        requires
            self.priority_in_bounds(),
        ensures
            r == self.spec_priority(),
    {
        proof {
            assert(self.direction.index as int * TASK_PRIORITY_STRIDE as int <= u32::MAX as int
                * TASK_PRIORITY_STRIDE as int) by (nonlinear_arith)
                requires
                    0 <= self.direction.index <= u32::MAX as int,
            ;
        }
        self.cell.global_index as u64 + self.direction.index as u64 * TASK_PRIORITY_STRIDE
    }
}

} // verus!
