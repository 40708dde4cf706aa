//! Cost-model parameters, in integer ticks.
//!
//! All simulated times are integer ticks. A caller working in seconds picks a
//! tick length and scales; the simulator never sees the unit. Time arithmetic
//! saturates at `u64::MAX` instead of overflowing; [`clip64`] is the
//! saturation in specifications.

use vstd::prelude::*;

verus! {

/// Clips a mathematical integer to the range of `u64`.
pub open spec fn clip64(x: int) -> int {
    if x > u64::MAX as int {
        u64::MAX as int
    } else {
        x
    }
}

/// `a + b`, saturating at `u64::MAX`.
pub fn sat_add(a: u64, b: u64) -> (r: u64)
    ensures
        r == clip64(a + b),
{
    a.saturating_add(b)
}

/// `a * b`, saturating at `u64::MAX`.
pub fn sat_mul(a: u64, b: u64) -> (r: u64)
    ensures
        r == clip64(a * b),
{
    if b == 0 {
        0
    } else if a > u64::MAX / b {
        proof {
            vstd::arithmetic::div_mod::lemma_fundamental_div_mod(u64::MAX as int, b as int);
            assert(a * b > u64::MAX) by (nonlinear_arith)
                requires
                    b >= 1,
                    a as int >= (u64::MAX as int / b as int) + 1,
                    u64::MAX as int == b as int * (u64::MAX as int / b as int) + (
                    u64::MAX as int % b as int),
                    (u64::MAX as int % b as int) < b as int,
            ;
        }
        u64::MAX
    } else {
        proof {
            vstd::arithmetic::div_mod::lemma_fundamental_div_mod(u64::MAX as int, b as int);
            assert(a * b <= u64::MAX) by (nonlinear_arith)
                requires
                    b >= 1,
                    a as int <= u64::MAX as int / b as int,
                    u64::MAX as int == b as int * (u64::MAX as int / b as int) + (
                    u64::MAX as int % b as int),
                    (u64::MAX as int % b as int) >= 0,
            ;
        }
        a * b
    }
}

/// The configuration of a run: how many directions to sweep, how often a
/// processor must drain its communication queues, and the cost model.
#[derive(Clone, Copy, PartialEq, Eq, Structural, Debug)]
pub struct ParamFile {
    pub num_directions: usize,
    pub batch_size: usize,
    pub send_time_offset: u64,
    pub send_time_per_byte: u64,
    pub recv_time_offset: u64,
    pub recv_time_per_byte: u64,
    pub solve_time_offset: u64,
    pub solve_time_per_task: u64,
    pub size_per_message: u64,
}

impl ParamFile {
    /// The cost of draining `n` tasks from a communication queue: a fixed
    /// offset plus a per-task charge. Draining nothing costs nothing.
    pub open spec fn spec_send_cost(self, n: nat) -> int {
        if n == 0 {
            0
        } else {
            self.send_time_offset + n * (self.send_time_per_byte * self.size_per_message)
        }
    }

    /// Computes the drain cost, saturating at `u64::MAX`.
    pub fn send_cost(&self, n: usize) -> (r: u64)
        ensures
            r == clip64(self.spec_send_cost(n as nat)),
    {
        if n == 0 {
            return 0;
        }
        let per_task = sat_mul(self.send_time_per_byte, self.size_per_message);
        let volume = sat_mul(n as u64, per_task);
        let r = sat_add(self.send_time_offset, volume);
        proof {
            let p = self.send_time_per_byte * self.size_per_message;
            if p > u64::MAX {
                assert(n as int * p >= 1 * p) by (nonlinear_arith)
                    requires
                        n >= 1,
                        p >= 0,
                ;
            } else {
                assert(per_task == p);
            }
            assert(clip64(self.send_time_offset + clip64(n as int * clip64(p))) == clip64(
                self.spec_send_cost(n as nat),
            )) by (nonlinear_arith)
                requires
                    n >= 1,
                    p >= 0,
                    self.send_time_offset >= 0,
                    self.spec_send_cost(n as nat) == self.send_time_offset + n as int * p,
            ;
        }
        r
    }
}

/// How many directions a run uses when the configuration names none.
pub fn default_num_directions() -> (r: usize)
    ensures
        r == 84,
{
    84
}

/// The batch size used when the configuration names none: so large that a
/// processor drains its queues only when it runs out of ready work.
pub fn default_batch_size() -> (r: usize)
    ensures
        r == usize::MAX,
{
    usize::MAX
}

/// The message payload assumed when the configuration names none.
pub fn default_message_size() -> (r: u64)
    ensures
        r == 384,
{
    384
}

} // verus!
