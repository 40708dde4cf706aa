//! Aggregate statistics of one finished run.

use vstd::prelude::*;

use crate::param_file::clip64;
use crate::param_file::sat_add;
use crate::processor::Processor;

verus! {

/// The largest clock among the processors: the simulated wall time.
pub open spec fn max_time(procs: Seq<Processor>) -> int
    decreases procs.len(),
{
    if procs.len() == 0 {
        0
    } else {
        let rest = max_time(procs.drop_first());
        if procs[0].time >= rest {
            procs[0].time as int
        } else {
            rest
        }
    }
}

/// Total ticks spent communicating, over all processors.
pub open spec fn sum_comm(procs: Seq<Processor>) -> int
    decreases procs.len(),
{
    if procs.len() == 0 {
        0
    } else {
        procs[0].time_spent_communicating + sum_comm(procs.drop_first())
    }
}

/// Total ticks spent waiting, over all processors.
pub open spec fn sum_wait(procs: Seq<Processor>) -> int
    decreases procs.len(),
{
    if procs.len() == 0 {
        0
    } else {
        procs[0].time_spent_waiting + sum_wait(procs.drop_first())
    }
}

/// One more processor extends a prefix's maximum.
pub proof fn lemma_max_time_take_step(procs: Seq<Processor>, j: int)
    requires
        0 <= j < procs.len(),
    ensures
        max_time(procs.take(j + 1)) == (if procs[j].time as int >= max_time(procs.take(j)) {
            procs[j].time as int
        } else {
            max_time(procs.take(j))
        }),
    decreases j,
{
    if j == 0 {
        assert(procs.take(1).drop_first() =~= Seq::<Processor>::empty());
        assert(procs.take(0) =~= Seq::<Processor>::empty());
        assert(procs.take(1)[0] == procs[0]);
    } else {
        assert(procs.take(j + 1).drop_first() =~= procs.drop_first().take(j));
        assert(procs.take(j).drop_first() =~= procs.drop_first().take(j - 1));
        assert(procs.take(j + 1)[0] == procs[0]);
        assert(procs.take(j)[0] == procs[0]);
        assert(forall|x: int|
            0 <= x < procs.drop_first().len() ==> procs.drop_first()[x] == procs[x + 1]);
        lemma_max_time_take_step(procs.drop_first(), j - 1);
    }
}

/// The maximum is at least every single clock, and nonnegative.
pub proof fn lemma_max_time_bound(procs: Seq<Processor>, j: int)
    requires
        0 <= j < procs.len(),
    ensures
        max_time(procs) >= procs[j].time,
        max_time(procs) >= 0,
    decreases procs.len(),
{
    if j == 0 {
        lemma_max_time_nonneg(procs.drop_first());
    } else {
        lemma_max_time_bound(procs.drop_first(), j - 1);
    }
}

/// The maximum clock is nonnegative.
pub proof fn lemma_max_time_nonneg(procs: Seq<Processor>)
    ensures
        max_time(procs) >= 0,
    decreases procs.len(),
{
    if procs.len() > 0 {
        lemma_max_time_nonneg(procs.drop_first());
    }
}

/// One more processor extends a prefix's communication total.
pub proof fn lemma_sum_comm_take_step(procs: Seq<Processor>, j: int)
    requires
        0 <= j < procs.len(),
    ensures
        sum_comm(procs.take(j + 1)) == sum_comm(procs.take(j))
            + procs[j].time_spent_communicating,
    decreases j,
{
    if j == 0 {
        assert(procs.take(1).drop_first() =~= Seq::<Processor>::empty());
        assert(procs.take(0) =~= Seq::<Processor>::empty());
        assert(procs.take(1)[0] == procs[0]);
    } else {
        assert(procs.take(j + 1).drop_first() =~= procs.drop_first().take(j));
        assert(procs.take(j).drop_first() =~= procs.drop_first().take(j - 1));
        assert(procs.take(j + 1)[0] == procs[0]);
        assert(procs.take(j)[0] == procs[0]);
        assert(forall|x: int|
            0 <= x < procs.drop_first().len() ==> procs.drop_first()[x] == procs[x + 1]);
        lemma_sum_comm_take_step(procs.drop_first(), j - 1);
    }
}

/// One more processor extends a prefix's waiting total.
pub proof fn lemma_sum_wait_take_step(procs: Seq<Processor>, j: int)
    requires
        0 <= j < procs.len(),
    ensures
        sum_wait(procs.take(j + 1)) == sum_wait(procs.take(j)) + procs[j].time_spent_waiting,
    decreases j,
{
    if j == 0 {
        assert(procs.take(1).drop_first() =~= Seq::<Processor>::empty());
        assert(procs.take(0) =~= Seq::<Processor>::empty());
        assert(procs.take(1)[0] == procs[0]);
    } else {
        assert(procs.take(j + 1).drop_first() =~= procs.drop_first().take(j));
        assert(procs.take(j).drop_first() =~= procs.drop_first().take(j - 1));
        assert(procs.take(j + 1)[0] == procs[0]);
        assert(procs.take(j)[0] == procs[0]);
        assert(forall|x: int|
            0 <= x < procs.drop_first().len() ==> procs.drop_first()[x] == procs[x + 1]);
        lemma_sum_wait_take_step(procs.drop_first(), j - 1);
    }
}

/// What a run reports: the wall time (largest clock), and the mean ticks a
/// processor spent communicating and waiting. Means round down.
#[derive(Clone, Copy, PartialEq, Eq, Structural, Debug)]
pub struct RunData {
    pub time: u64,
    pub num_processors: usize,
    pub time_spent_communicating: u64,
    pub time_spent_waiting: u64,
}

impl RunData {
    /// Aggregates the processors of a finished run.
    pub fn new(processors: &Vec<Processor>) -> (r: RunData)
        requires
            processors@.len() >= 1,
        ensures
            r.num_processors == processors@.len(),
            r.time == max_time(processors@),
            r.time_spent_communicating == clip64(sum_comm(processors@)) / processors@.len() as int,
            r.time_spent_waiting == clip64(sum_wait(processors@)) / processors@.len() as int,
    {
        let n = processors.len();
        let mut time: u64 = 0;
        let mut comm: u64 = 0;
        let mut wait: u64 = 0;
        let mut j: usize = 0;
        proof {
            assert(processors@.take(0) =~= Seq::<Processor>::empty());
        }
        while j < n
            invariant
                j <= n,
                n == processors@.len(),
                time == max_time(processors@.take(j as int)),
                comm == clip64(sum_comm(processors@.take(j as int))),
                wait == clip64(sum_wait(processors@.take(j as int))),
            decreases n - j,
        {
            let p = &processors[j];
            proof {
                lemma_max_time_take_step(processors@, j as int);
                lemma_sum_comm_take_step(processors@, j as int);
                lemma_sum_wait_take_step(processors@, j as int);
                lemma_sum_comm_nonneg(processors@.take(j as int));
                lemma_sum_wait_nonneg(processors@.take(j as int));
            }
            if p.time > time {
                time = p.time;
            }
            comm = sat_add(comm, p.time_spent_communicating);
            wait = sat_add(wait, p.time_spent_waiting);
            proof {
                assert(processors@.take(j + 1)[j as int] == processors@[j as int]);
            }
            j = j + 1;
        }
        proof {
            assert(processors@.take(n as int) =~= processors@);
        }
        RunData {
            time,
            num_processors: n,
            time_spent_communicating: comm / (n as u64),
            time_spent_waiting: wait / (n as u64),
        }
    }
}

/// The communication total is nonnegative.
pub proof fn lemma_sum_comm_nonneg(procs: Seq<Processor>)
    ensures
        sum_comm(procs) >= 0,
    decreases procs.len(),
{
    if procs.len() > 0 {
        lemma_sum_comm_nonneg(procs.drop_first());
    }
}

/// The waiting total is nonnegative.
pub proof fn lemma_sum_wait_nonneg(procs: Seq<Processor>)
    ensures
        sum_wait(procs) >= 0,
    decreases procs.len(),
{
    if procs.len() > 0 {
        lemma_sum_wait_nonneg(procs.drop_first());
    }
}

} // verus!
