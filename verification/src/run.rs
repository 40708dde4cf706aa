//! Running a whole simulation over one grid.

use vstd::prelude::*;

use crate::cell::Cell;
use crate::direction::Direction;
use crate::face::Face;
use crate::graph::Node;
use crate::grid::Grid;
use crate::param_file::clip64;
use crate::param_file::ParamFile;
use crate::run_data::RunData;
use crate::sweep::run_deadlock_post;
use crate::sweep::run_ok_post;
use crate::sweep::Sweep;
use crate::sweep::SweepError;

verus! {

/// The highest processor number any cell of the mesh names.
pub open spec fn max_processor_num(nodes: Seq<Node<Cell, Face>>) -> int
    decreases nodes.len(),
{
    if nodes.len() == 0 {
        0
    } else {
        let rest = max_processor_num(nodes.drop_first());
        if nodes[0].data.processor_num >= rest {
            nodes[0].data.processor_num as int
        } else {
            rest
        }
    }
}

/// One more cell extends a prefix's maximum processor number.
pub proof fn lemma_max_processor_take_step(nodes: Seq<Node<Cell, Face>>, j: int)
    requires
        0 <= j < nodes.len(),
    ensures
        max_processor_num(nodes.take(j + 1)) == (if nodes[j].data.processor_num as int
            >= max_processor_num(nodes.take(j)) {
            nodes[j].data.processor_num as int
        } else {
            max_processor_num(nodes.take(j))
        }),
    decreases j,
{
    if j == 0 {
        assert(nodes.take(1).drop_first() =~= Seq::<Node<Cell, Face>>::empty());
        assert(nodes.take(0) =~= Seq::<Node<Cell, Face>>::empty());
        assert(nodes.take(1)[0] == nodes[0]);
    } else {
        assert(nodes.take(j + 1).drop_first() =~= nodes.drop_first().take(j));
        assert(nodes.take(j).drop_first() =~= nodes.drop_first().take(j - 1));
        assert(nodes.take(j + 1)[0] == nodes[0]);
        assert(nodes.take(j)[0] == nodes[0]);
        assert(forall|x: int|
            0 <= x < nodes.drop_first().len() ==> nodes.drop_first()[x] == nodes[x + 1]);
        lemma_max_processor_take_step(nodes.drop_first(), j - 1);
    }
}

/// The maximum dominates each cell's processor number and is nonnegative.
pub proof fn lemma_max_processor_bound(nodes: Seq<Node<Cell, Face>>, j: int)
    requires
        0 <= j < nodes.len(),
    ensures
        max_processor_num(nodes) >= nodes[j].data.processor_num,
        max_processor_num(nodes) >= 0,
    decreases nodes.len(),
{
    if j == 0 {
        lemma_max_processor_nonneg(nodes.drop_first());
    } else {
        lemma_max_processor_bound(nodes.drop_first(), j - 1);
    }
}

/// The maximum processor number is nonnegative.
pub proof fn lemma_max_processor_nonneg(nodes: Seq<Node<Cell, Face>>)
    ensures
        max_processor_num(nodes) >= 0,
    decreases nodes.len(),
{
    if nodes.len() > 0 {
        lemma_max_processor_nonneg(nodes.drop_first());
    }
}

/// What running one grid promises, over the finished sweep state that is
/// returned beside the statistics. On success the full run contract holds
/// of that state (every task solved once, the reported wall time and means,
/// the per-processor bounds, the exact single-processor wall time); on
/// deadlock the full deadlock report holds, including the certificate that
/// the recorded dependencies were truly stuck.
pub open spec fn driver_post(
    param_file: ParamFile,
    grid: Grid,
    directions: Seq<Direction>,
    sweep: Sweep,
    result: Result<RunData, SweepError>,
) -> bool {
    let np = max_processor_num(grid.data.nodes@) + 1;
    &&& sweep.param_file == param_file
    &&& sweep.processors.processors@.len() == np
    &&& sweep.graph.nodes@.len() == directions.len() * grid.data.nodes@.len()
    &&& match result {
        Ok(rd) => run_ok_post(sweep, sweep, rd) && rd.num_processors == np,
        Err(e) => (match e {
            SweepError::Deadlock { num_unsolved, num_asleep, earliest_time } => run_deadlock_post(
                sweep,
                sweep,
                num_unsolved,
                num_asleep,
                earliest_time,
            ),
        }),
    }
}

/// Simulates a sweep over one grid, honoring the processor assignment its
/// cells carry: the pool gets one processor per number up to the highest one
/// named. Returns the finished pool and graph beside the statistics, so a
/// caller can hold the result against the run contract and inspect each
/// processor's clocks and counters.
pub fn run_sweep_on_processors(
    param_file: &ParamFile,
    grid: &Grid,
    directions: &Vec<Direction>,
) -> (r: (Sweep, Result<RunData, SweepError>))
    requires
        grid.wf(),
        grid.data.nodes@.len() > 0,
        grid.data.nodes@.len() < crate::task::TASK_PRIORITY_STRIDE,
        directions@.len() <= 0x1_0000_0000,
        directions@.len() * grid.data.nodes@.len() <= usize::MAX,
        forall|d: int|
            0 <= d < directions@.len() ==> (#[trigger] directions@[d]).vector.in_bounds(),
        forall|d: int| 0 <= d < directions@.len() ==> (#[trigger] directions@[d]).index == d,
        forall|i: int|
            0 <= i < grid.data.nodes@.len() ==> (#[trigger] grid.data.nodes@[i]).data.processor_num
                < usize::MAX,
    ensures
        driver_post(*param_file, *grid, directions@, r.0, r.1),
{
    let n = grid.data.len();
    let mut max_num: usize = 0;
    let mut j: usize = 0;
    proof {
        assert(grid.data.nodes@.take(0) =~= Seq::<Node<Cell, Face>>::empty());
    }
    while j < n
        invariant
            j <= n,
            n == grid.data.nodes@.len(),
            max_num as int == max_processor_num(grid.data.nodes@.take(j as int)),
            max_num < usize::MAX,
            forall|i: int|
                0 <= i < n ==> (#[trigger] grid.data.nodes@[i]).data.processor_num < usize::MAX,
        decreases n - j,
    {
        let node = grid.data.get(j).unwrap();
        proof {
            lemma_max_processor_take_step(grid.data.nodes@, j as int);
        }
        if node.data.processor_num > max_num {
            max_num = node.data.processor_num;
        }
        proof {
            assert(grid.data.nodes@.take(j + 1)[j as int] == grid.data.nodes@[j as int]);
        }
        j = j + 1;
    }
    proof {
        assert(grid.data.nodes@.take(n as int) =~= grid.data.nodes@);
        assert forall|ii: int| 0 <= ii < n implies (
        #[trigger] grid.data.nodes@[ii]).data.processor_num < max_num + 1 by {
            lemma_max_processor_bound(grid.data.nodes@, ii);
        }
    }
    let num_processors = max_num + 1;
    let mut sweep = Sweep::new(param_file, grid, directions, num_processors);
    let ghost s0 = sweep;
    let result = sweep.run();
    proof {
        assert(sweep.graph.nodes@.len() == s0.graph.nodes@.len());
        assert(sweep.param_file == s0.param_file);
        if result is Ok {
            let rd = result->Ok_0;
            assert(run_ok_post(s0, sweep, rd));
            assert(run_ok_post(sweep, sweep, rd));
        }
        if result is Err {
            match result->Err_0 {
                SweepError::Deadlock { num_unsolved, num_asleep, earliest_time } => {
                    assert(run_deadlock_post(s0, sweep, num_unsolved, num_asleep, earliest_time));
                    assert(run_deadlock_post(
                        sweep,
                        sweep,
                        num_unsolved,
                        num_asleep,
                        earliest_time,
                    ));
                },
            }
        }
    }
    (sweep, result)
}

} // verus!
