//! The sweep driver: the discrete-event loop that advances the earliest
//! processor, solves ready tasks, routes newly-ready work, and aggregates
//! the run statistics.

use vstd::prelude::*;

use crate::counting::b2i;
use crate::counting::count_carrying;
use crate::counting::count_from_to;
use crate::counting::count_targets;
use crate::counting::count_unsolved_to;
use crate::counting::lemma_count_carrying_nonneg;
use crate::counting::lemma_count_carrying_push;
use crate::counting::lemma_count_carrying_skip;
use crate::counting::lemma_count_from_to_nonneg;
use crate::counting::lemma_count_targets_nonneg;
use crate::counting::lemma_count_targets_skip;
use crate::counting::lemma_count_targets_skip_prefix;
use crate::counting::lemma_count_unsolved_insert;
use crate::counting::lemma_count_unsolved_witness;
use crate::counting::lemma_count_unsolved_nonneg;
use crate::direction::Direction;
use crate::graph::Node;
use crate::grid::append_direction;
use crate::grid::block_geometry;
use crate::grid::dep_graph_wf;
use crate::grid::Dependency;
use crate::grid::DependencyGraph;
use crate::grid::Grid;
use crate::param_file::clip64;
use crate::param_file::ParamFile;
use crate::pqueue::pq_empty;
use crate::pqueue::pq_model;
use crate::processor::Processor;
use crate::processors::graph_tasks_ok;
use crate::processors::spec_pool_priority;
use crate::processors::wake_relation;
use crate::processors::Processors;
use crate::run_data::max_time;
use crate::run_data::sum_comm;
use crate::run_data::sum_wait;
use crate::run_data::RunData;
use crate::task::Task;

verus! {

/// Total completed solves over all processors.
pub open spec fn sum_solved(procs: Seq<Processor>) -> int
    decreases procs.len(),
{
    if procs.len() == 0 {
        0
    } else {
        procs[0].num_solved + sum_solved(procs.drop_first())
    }
}

/// The communication debt of one processor: outgoing entries count twice
/// (they will be charged again on arrival), incoming ones once.
pub open spec fn comm_weight(p: Processor) -> int {
    2 * (p.send_queue@.len() as int) + (pq_model(p.receive_queue).dom().len() as int)
}

/// Total communication debt of the pool; the termination measure's second
/// component.
pub open spec fn sum_weight(procs: Seq<Processor>) -> int
    decreases procs.len(),
{
    if procs.len() == 0 {
        0
    } else {
        comm_weight(procs[0]) + sum_weight(procs.drop_first())
    }
}

/// How often task `v` is held by one processor, over its three queues.
pub open spec fn local_count(p: Processor, v: usize) -> int {
    b2i(pq_model(p.queue).dom().contains(v)) + b2i(pq_model(p.receive_queue).dom().contains(v))
        + count_carrying(p.send_queue@, v)
}

/// How often task `v` is held anywhere in the pool. The scheduler keeps
/// this at one for every unsolved task with no upwind work left, and at
/// zero for every other task.
pub open spec fn total_count(procs: Seq<Processor>, v: usize) -> int
    decreases procs.len(),
{
    if procs.len() == 0 {
        0
    } else {
        local_count(procs[0], v) + total_count(procs.drop_first(), v)
    }
}

/// Replacing one processor changes `sum_solved` by the local difference.
pub proof fn lemma_sum_solved_update(procs: Seq<Processor>, i: int, p: Processor)
    requires
        0 <= i < procs.len(),
    ensures
        sum_solved(procs.update(i, p)) == sum_solved(procs) - procs[i].num_solved + p.num_solved,
    decreases procs.len(),
{
    let t = procs.update(i, p);
    if i == 0 {
        assert(t.drop_first() =~= procs.drop_first());
    } else {
        assert(t.drop_first() =~= procs.drop_first().update(i - 1, p));
        lemma_sum_solved_update(procs.drop_first(), i - 1, p);
    }
}

/// Replacing one processor changes `sum_weight` by the local difference.
pub proof fn lemma_sum_weight_update(procs: Seq<Processor>, i: int, p: Processor)
    requires
        0 <= i < procs.len(),
    ensures
        sum_weight(procs.update(i, p)) == sum_weight(procs) - comm_weight(procs[i]) + comm_weight(
            p,
        ),
    decreases procs.len(),
{
    let t = procs.update(i, p);
    if i == 0 {
        assert(t.drop_first() =~= procs.drop_first());
    } else {
        assert(t.drop_first() =~= procs.drop_first().update(i - 1, p));
        lemma_sum_weight_update(procs.drop_first(), i - 1, p);
    }
}

/// Replacing one processor changes `total_count` by the local difference.
pub proof fn lemma_total_count_update(procs: Seq<Processor>, i: int, p: Processor, v: usize)
    requires
        0 <= i < procs.len(),
    ensures
        total_count(procs.update(i, p), v) == total_count(procs, v) - local_count(procs[i], v)
            + local_count(p, v),
    decreases procs.len(),
{
    let t = procs.update(i, p);
    if i == 0 {
        assert(t.drop_first() =~= procs.drop_first());
    } else {
        assert(t.drop_first() =~= procs.drop_first().update(i - 1, p));
        lemma_total_count_update(procs.drop_first(), i - 1, p, v);
    }
}

/// `sum_solved` dominates each processor's count; it is nonnegative.
pub proof fn lemma_sum_solved_bound(procs: Seq<Processor>, i: int)
    requires
        0 <= i < procs.len(),
    ensures
        sum_solved(procs) >= procs[i].num_solved,
        sum_solved(procs) >= 0,
    decreases procs.len(),
{
    if i == 0 {
        lemma_sum_solved_nonneg(procs.drop_first());
    } else {
        lemma_sum_solved_bound(procs.drop_first(), i - 1);
    }
}

/// `sum_solved` is nonnegative.
pub proof fn lemma_sum_solved_nonneg(procs: Seq<Processor>)
    ensures
        sum_solved(procs) >= 0,
    decreases procs.len(),
{
    if procs.len() > 0 {
        lemma_sum_solved_nonneg(procs.drop_first());
    }
}

/// When every processor but `procs[i]` holds nothing of `v`, the total is
/// the local count at `i`.
pub proof fn lemma_total_count_single(procs: Seq<Processor>, i: int, v: usize)
    requires
        0 <= i < procs.len(),
        forall|j: int| 0 <= j < procs.len() && j != i ==> local_count(#[trigger] procs[j], v) == 0,
    ensures
        total_count(procs, v) == local_count(procs[i], v),
    decreases procs.len(),
{
    if i == 0 {
        lemma_total_count_zero(procs.drop_first(), v);
    } else {
        assert(local_count(procs[0], v) == 0);
        lemma_total_count_single(procs.drop_first(), i - 1, v);
    }
}

/// When no processor holds `v`, the total is zero.
pub proof fn lemma_total_count_zero(procs: Seq<Processor>, v: usize)
    requires
        forall|j: int| 0 <= j < procs.len() ==> local_count(#[trigger] procs[j], v) == 0,
    ensures
        total_count(procs, v) == 0,
    decreases procs.len(),
{
    if procs.len() > 0 {
        lemma_total_count_zero(procs.drop_first(), v);
    }
}

/// The total over the pool dominates each local count.
pub proof fn lemma_total_count_bound(procs: Seq<Processor>, i: int, v: usize)
    requires
        0 <= i < procs.len(),
        forall|j: int| 0 <= j < procs.len() ==> local_count(#[trigger] procs[j], v) >= 0,
    ensures
        total_count(procs, v) >= local_count(procs[i], v),
        total_count(procs, v) >= 0,
    decreases procs.len(),
{
    if i == 0 {
        lemma_total_count_nonneg(procs.drop_first(), v);
    } else {
        lemma_total_count_bound(procs.drop_first(), i - 1, v);
    }
}

/// A pool of nonnegative local counts has a nonnegative total.
pub proof fn lemma_total_count_nonneg(procs: Seq<Processor>, v: usize)
    requires
        forall|j: int| 0 <= j < procs.len() ==> local_count(#[trigger] procs[j], v) >= 0,
    ensures
        total_count(procs, v) >= 0,
    decreases procs.len(),
{
    if procs.len() > 0 {
        lemma_total_count_nonneg(procs.drop_first(), v);
    }
}

/// Every local count is nonnegative.
pub proof fn lemma_local_count_nonneg(p: Processor, v: usize)
    ensures
        local_count(p, v) >= 0,
{
    lemma_count_carrying_nonneg(p.send_queue@, v);
}

/// Everything of the task graph that the sweep never changes: the store
/// size, the recorded dependencies, and every task field but `num_upwind`.
pub open spec fn graph_frame(g: DependencyGraph, g0: DependencyGraph) -> bool {
    &&& g.nodes@.len() == g0.nodes@.len()
    &&& g.deps == g0.deps
    &&& forall|v: int|
        0 <= v < g0.nodes@.len() ==> ((#[trigger] g.nodes@[v]).index == g0.nodes@[v].index
            && g.nodes@[v].data.cell == g0.nodes@[v].data.cell && g.nodes@[v].data.direction
            == g0.nodes@[v].data.direction && g.nodes@[v].data.processor_num
            == g0.nodes@[v].data.processor_num && g.nodes@[v].edges@ == g0.nodes@[v].edges@)
}

/// During a run, every task's counter equals the dependency edges into it
/// from tasks not yet solved.
pub open spec fn inv_upwind(g: DependencyGraph, solved: Set<usize>) -> bool {
    forall|v: int|
        0 <= v < g.nodes@.len() ==> (#[trigger] g.nodes@[v]).data.num_upwind == count_unsolved_to(
            g.deps@,
            solved,
            v as usize,
        )
}

/// Solves one task on its processor and routes every dependent task whose
/// last upwind dependency this was: to the local ready queue when this
/// processor owns it, else to the outgoing queue for its owner.
fn handle_task_solving(
    graph: &mut DependencyGraph,
    processor: &mut Processor,
    task_index: usize,
    Ghost(solved): Ghost<Set<usize>>,
    Ghost(np): Ghost<int>,
)
    requires
        old(graph).nodes@.len() <= usize::MAX,
        forall|v: int|
            0 <= v < old(graph).nodes@.len() ==> (#[trigger] old(graph).nodes@[v]).index == v,
        forall|v: int, k: int|
            0 <= v < old(graph).nodes@.len() && 0 <= k < old(graph).nodes@[v].edges@.len() ==> (
            #[trigger] old(graph).nodes@[v].edges@[k]).index < old(graph).nodes@.len(),
        forall|u: usize, v: usize|
            u < old(graph).nodes@.len() && v < old(graph).nodes@.len() ==> #[trigger] count_from_to(
                old(graph).deps@,
                u,
                v,
            ) == count_targets(old(graph).nodes@[u as int].edges@, v),
        graph_tasks_ok(*old(graph), np),
        inv_upwind(*old(graph), solved),
        task_index < old(graph).nodes@.len(),
        !solved.contains(task_index),
        old(graph).nodes@[task_index as int].data.num_upwind == 0,
        old(graph).nodes@[task_index as int].data.processor_num == old(processor).num,
        old(processor).wf(),
        old(processor).num_solved < usize::MAX,
    ensures
        final(processor).wf(),
        graph_frame(*final(graph), *old(graph)),
        inv_upwind(*final(graph), solved.insert(task_index)),
        (*final(processor) == (Processor {
            queue: final(processor).queue,
            send_queue: final(processor).send_queue,
            num_solved: final(processor).num_solved,
            time: final(processor).time,
            ..*old(processor)
        })),
        final(processor).num_solved == old(processor).num_solved + 1,
        final(processor).time == clip64(
            old(processor).time + old(processor).param_file.solve_time_offset,
        ),
        final(processor).time >= old(processor).time,
        forall|v: usize|
            #[trigger] pq_model(final(processor).queue).dom().contains(v) <==> (pq_model(
                old(processor).queue,
            ).dom().contains(v) || newly_ready_local(*old(graph), *final(graph), task_index, v,
            old(processor).num)),
        forall|v: usize|
            newly_ready_local(*old(graph), *final(graph), task_index, v, old(processor).num)
                ==> pq_model(final(processor).queue)[v] == old(
                graph,
            ).nodes@[v as int].data.spec_priority(),
        forall|v: usize|
            pq_model(old(processor).queue).dom().contains(v) && !newly_ready_local(
                *old(graph),
                *final(graph),
                task_index,
                v,
                old(processor).num,
            ) ==> #[trigger] pq_model(final(processor).queue)[v] == pq_model(
                old(processor).queue,
            )[v],
        forall|v: usize|
            v < old(graph).nodes@.len() ==> #[trigger] count_carrying(
                final(processor).send_queue@,
                v,
            ) == count_carrying(old(processor).send_queue@, v) + b2i(
                newly_ready_remote(*old(graph), *final(graph), task_index, v, old(processor).num),
            ),
        final(processor).send_queue@.len() >= old(processor).send_queue@.len(),
        final(processor).send_queue@.take(old(processor).send_queue@.len() as int) == old(
            processor,
        ).send_queue@,
        forall|k: int|
            old(processor).send_queue@.len() <= k < final(processor).send_queue@.len() ==> {
                let entry = #[trigger] final(processor).send_queue@[k];
                entry.1 < old(graph).nodes@.len() && (entry.0 as int) < np && entry.0 != old(
                    processor,
                ).num && entry.0 == old(graph).nodes@[entry.1 as int].data.processor_num
                    && newly_ready_remote(
                    *old(graph),
                    *final(graph),
                    task_index,
                    entry.1,
                    old(processor).num,
                )
            },
{
    let ghost solved1 = solved.insert(task_index);
    let ghost g0 = *old(graph);
    let task = graph.get(task_index).unwrap().data;
    processor.solve(&task);
    let edge_count = graph.get(task_index).unwrap().edges.len();
    proof {
        assert forall|w: usize| w < g0.nodes@.len() implies count_unsolved_to(
            g0.deps@,
            solved1,
            w,
        ) == count_unsolved_to(g0.deps@, solved, w) - count_targets(
            g0.nodes@[task_index as int].edges@,
            w,
        ) by {
            lemma_count_unsolved_insert(g0.deps@, solved, task_index, w);
        }
        assert(g0.nodes@[task_index as int].edges@.skip(0) =~= g0.nodes@[task_index as int].edges@);
    }
    let ghost p0 = *old(processor);
    let ghost ready0 = pq_model(old(processor).queue);
    let ghost send0 = old(processor).send_queue@;
    let mut k: usize = 0;
    while k < edge_count
        invariant
            k <= edge_count,
            task_index < g0.nodes@.len(),
            g0.nodes@.len() <= usize::MAX,
            edge_count == g0.nodes@[task_index as int].edges@.len(),
            graph_frame(*graph, g0),
            forall|v: int| 0 <= v < g0.nodes@.len() ==> (#[trigger] g0.nodes@[v]).index == v,
            forall|v: int, k2: int|
                0 <= v < g0.nodes@.len() && 0 <= k2 < g0.nodes@[v].edges@.len() ==> (
                #[trigger] g0.nodes@[v].edges@[k2]).index < g0.nodes@.len(),
            graph_tasks_ok(g0, np),
            !solved.contains(task_index),
            forall|w: int|
                0 <= w < g0.nodes@.len() ==> (#[trigger] g0.nodes@[w]).data.num_upwind
                    == count_unsolved_to(g0.deps@, solved1, w as usize) + count_targets(
                    g0.nodes@[task_index as int].edges@,
                    w as usize,
                ),
            forall|w: int|
                0 <= w < g0.nodes@.len() ==> (#[trigger] graph.nodes@[w]).data.num_upwind
                    == count_unsolved_to(g0.deps@, solved1, w as usize) + count_targets(
                    g0.nodes@[task_index as int].edges@.skip(k as int),
                    w as usize,
                ),
            processor.wf(),
            (*processor == (Processor {
                queue: processor.queue,
                send_queue: processor.send_queue,
                num_solved: processor.num_solved,
                time: processor.time,
                ..p0
            })),
            processor.num_solved == p0.num_solved + 1,
            processor.time == clip64(p0.time + p0.param_file.solve_time_offset),
            processor.time >= p0.time,
            forall|v: usize|
                #[trigger] pq_model(processor.queue).dom().contains(v) <==> (ready0.dom().contains(
                    v,
                ) || partial_ready_local(g0, *graph, task_index, v, p0.num, k as int)),
            forall|v: usize|
                partial_ready_local(g0, *graph, task_index, v, p0.num, k as int) ==> pq_model(
                    processor.queue,
                )[v] == g0.nodes@[v as int].data.spec_priority(),
            forall|v: usize|
                ready0.dom().contains(v) && !partial_ready_local(
                    g0,
                    *graph,
                    task_index,
                    v,
                    p0.num,
                    k as int,
                ) ==> #[trigger] pq_model(processor.queue)[v] == ready0[v],
            forall|v: usize|
                v < g0.nodes@.len() ==> #[trigger] count_carrying(processor.send_queue@, v)
                    == count_carrying(send0, v) + b2i(
                    partial_ready_remote(g0, *graph, task_index, v, p0.num, k as int),
                ),
            processor.send_queue@.len() >= send0.len(),
            processor.send_queue@.take(send0.len() as int) == send0,
            forall|k2: int|
                send0.len() <= k2 < processor.send_queue@.len() ==> {
                    let entry = #[trigger] processor.send_queue@[k2];
                    entry.1 < g0.nodes@.len() && (entry.0 as int) < np && entry.0 != p0.num
                        && entry.0 == g0.nodes@[entry.1 as int].data.processor_num
                        && partial_ready_remote(g0, *graph, task_index, entry.1, p0.num, k as int)
                },
        decreases edge_count - k,
    {
        let edge = graph.get(task_index).unwrap().edges[k];
        let downwind_index = edge.index;
        proof {
            assert(g0.nodes@[task_index as int].edges@[k as int].index < g0.nodes@.len());
            lemma_count_targets_skip(
                g0.nodes@[task_index as int].edges@,
                k as int,
                downwind_index,
            );
            lemma_count_targets_nonneg(
                g0.nodes@[task_index as int].edges@.skip(k + 1),
                downwind_index,
            );
            lemma_count_unsolved_nonneg(g0.deps@, solved1, downwind_index);
            lemma_count_targets_skip_prefix(
                g0.nodes@[task_index as int].edges@,
                k as int,
                downwind_index,
            );
        }
        let ghost gprev = *graph;
        let ghost send_prev = processor.send_queue@;
        let downwind_node = graph.node_mut(downwind_index);
        let priority = downwind_node.data.get_priority();
        let upwind_left = downwind_node.data.num_upwind;
        downwind_node.data.num_upwind = upwind_left - 1;
        let owner = downwind_node.data.processor_num;
        let now_ready = upwind_left == 1;
        proof {
            assert(graph.nodes@ == gprev.nodes@.update(
                downwind_index as int,
                graph.nodes@[downwind_index as int],
            ));
            assert(g0.nodes@[downwind_index as int].data.num_upwind > 0);
            assert forall|w: int|
                0 <= w < g0.nodes@.len() implies (#[trigger] graph.nodes@[w]).data.num_upwind
                == count_unsolved_to(g0.deps@, solved1, w as usize) + count_targets(
                g0.nodes@[task_index as int].edges@.skip(k + 1),
                w as usize,
            ) by {
                lemma_count_targets_skip(g0.nodes@[task_index as int].edges@, k as int, w as usize);
                if w != downwind_index {
                    assert(graph.nodes@[w] == gprev.nodes@[w]);
                }
            }
        }
        if now_ready {
            if owner == processor.num {
                processor.add_task_to_queue(downwind_index, priority);
            } else {
                processor.add_task_to_send_queue(downwind_index, owner);
            }
        }
        proof {
            // Tasks other than this edge's target keep their standing; the
            // target's standing follows its counter.
            assert forall|v: usize|
                v != downwind_index implies (partial_ready_local(
                g0,
                *graph,
                task_index,
                v,
                p0.num,
                k + 1,
            ) == partial_ready_local(g0, gprev, task_index, v, p0.num, k as int)
                && partial_ready_remote(g0, *graph, task_index, v, p0.num, k + 1)
                == partial_ready_remote(g0, gprev, task_index, v, p0.num, k as int)) by {
                if (v as int) < g0.nodes@.len() {
                    assert(graph.nodes@[v as int] == gprev.nodes@[v as int]);
                }
            }
            assert(!partial_ready_local(g0, gprev, task_index, downwind_index, p0.num, k as int));
            assert(!partial_ready_remote(g0, gprev, task_index, downwind_index, p0.num, k as int));
            if now_ready {
                assert(graph.nodes@[downwind_index as int].data.num_upwind == 0);
                if owner == p0.num {
                    assert(partial_ready_local(g0, *graph, task_index, downwind_index, p0.num, k + 1));
                    assert(!partial_ready_remote(g0, *graph, task_index, downwind_index, p0.num, k + 1));
                } else {
                    assert(partial_ready_remote(g0, *graph, task_index, downwind_index, p0.num, k + 1));
                    assert(!partial_ready_local(g0, *graph, task_index, downwind_index, p0.num, k + 1));
                }
            } else {
                assert(graph.nodes@[downwind_index as int].data.num_upwind > 0);
                assert(!partial_ready_local(g0, *graph, task_index, downwind_index, p0.num, k + 1));
                assert(!partial_ready_remote(g0, *graph, task_index, downwind_index, p0.num, k + 1));
            }
            // Ready-queue standing.
            assert forall|v: usize| (#[trigger] pq_model(processor.queue).dom().contains(v) <==> (
            ready0.dom().contains(v) || partial_ready_local(
                g0,
                *graph,
                task_index,
                v,
                p0.num,
                k + 1,
            ))) by {}
            // Outgoing counts.
            assert forall|v: usize| v < g0.nodes@.len() implies #[trigger] count_carrying(
                processor.send_queue@,
                v,
            ) == count_carrying(send0, v) + b2i(
                partial_ready_remote(g0, *graph, task_index, v, p0.num, k + 1),
            ) by {
                if now_ready && owner != p0.num {
                    assert(processor.send_queue@ == send_prev.push((owner, downwind_index)));
                    lemma_count_carrying_push(send_prev, (owner, downwind_index), v);
                } else {
                    assert(processor.send_queue@ == send_prev);
                }
            }
            assert(processor.send_queue@.take(send0.len() as int) =~= send0);
        }
        k = k + 1;
    }
    proof {
        assert(g0.nodes@[task_index as int].edges@.skip(edge_count as int) =~= Seq::<
            crate::graph::Edge<Dependency>,
        >::empty());
    }
}

/// After processing the first `k` edges of the solved task, `v` has just
/// become ready on the solving processor itself.
pub open spec fn partial_ready_local(
    g0: DependencyGraph,
    g: DependencyGraph,
    t: usize,
    v: usize,
    num: usize,
    k: int,
) -> bool {
    &&& v < g0.nodes@.len()
    &&& g0.nodes@[v as int].data.processor_num == num
    &&& g0.nodes@[v as int].data.num_upwind > 0
    &&& g.nodes@[v as int].data.num_upwind == 0
}

/// After processing the first `k` edges of the solved task, `v` has just
/// become ready and belongs to another processor.
pub open spec fn partial_ready_remote(
    g0: DependencyGraph,
    g: DependencyGraph,
    t: usize,
    v: usize,
    num: usize,
    k: int,
) -> bool {
    &&& v < g0.nodes@.len()
    &&& g0.nodes@[v as int].data.processor_num != num
    &&& g0.nodes@[v as int].data.num_upwind > 0
    &&& g.nodes@[v as int].data.num_upwind == 0
}

/// A task that this solve made ready on the solving processor itself.
pub open spec fn newly_ready_local(
    g0: DependencyGraph,
    g: DependencyGraph,
    t: usize,
    v: usize,
    num: usize,
) -> bool {
    partial_ready_local(g0, g, t, v, num, 0)
}

/// A task that this solve made ready for another processor.
pub open spec fn newly_ready_remote(
    g0: DependencyGraph,
    g: DependencyGraph,
    t: usize,
    v: usize,
    num: usize,
) -> bool {
    partial_ready_remote(g0, g, t, v, num, 0)
}


/// A finite set of task indices all below `n` has at most `n` elements; one
/// more index outside it still fits below `n`.
pub open spec fn below_set(n: int) -> Set<usize> {
    Set::new(|w: usize| (w as int) < n)
}

/// The set of indices below `n` is finite, with `n` elements.
pub proof fn lemma_below_set_len(n: int)
    requires
        0 <= n <= usize::MAX as int,
    ensures
        below_set(n).finite(),
        below_set(n).len() == n,
    decreases n,
{
    if n == 0 {
        assert(below_set(0) =~= Set::<usize>::empty());
    } else {
        lemma_below_set_len(n - 1);
        assert(below_set(n) =~= below_set(n - 1).insert((n - 1) as usize));
        assert(!below_set(n - 1).contains((n - 1) as usize));
    }
}

/// A set of task indices below `n` that misses one of them has fewer than
/// `n` elements.
pub proof fn lemma_solved_missing(solved: Set<usize>, n: int, v: usize)
    requires
        0 <= n <= usize::MAX as int,
        solved.finite(),
        forall|w: usize| solved.contains(w) ==> (w as int) < n,
        !solved.contains(v),
        (v as int) < n,
    ensures
        solved.len() < n,
{
    lemma_below_set_len(n);
    let reduced = below_set(n).remove(v);
    assert(solved.subset_of(reduced));
    assert(below_set(n).contains(v));
    vstd::set_lib::lemma_len_subset(solved, reduced);
}

/// A fresh processor: clock and counters at zero, awake, queues empty but
/// for the seeded ready queue.
pub open spec fn fresh_proc(p: Processor, i: int, params: ParamFile) -> bool {
    &&& p.wf()
    &&& p.num == i
    &&& p.param_file == params
    &&& p.num_solved == 0
    &&& p.time == 0
    &&& !p.asleep
    &&& p.time_spent_communicating == 0
    &&& p.time_spent_waiting == 0
    &&& p.send_queue@ == Seq::<(usize, usize)>::empty()
    &&& pq_model(p.receive_queue) == pq_empty()
}

/// What must hold of a task sitting in a ready or receive queue of
/// processor `owner`: it is a real task of that processor, all its upwind
/// work is done, and nobody has solved it yet.
pub open spec fn queued_entry_ok(g: DependencyGraph, solved: Set<usize>, v: usize, owner: int) -> bool {
    &&& v < g.nodes@.len()
    &&& g.nodes@[v as int].data.processor_num == owner
    &&& g.nodes@[v as int].data.num_upwind == 0
    &&& !solved.contains(v)
}

/// What must hold of an outgoing `(destination, task)` entry of processor
/// `sender`.
pub open spec fn send_entry_ok(
    g: DependencyGraph,
    solved: Set<usize>,
    entry: (usize, usize),
    sender: int,
    np: int,
) -> bool {
    &&& entry.1 < g.nodes@.len()
    &&& (entry.0 as int) < np
    &&& (entry.0 as int) != sender
    &&& g.nodes@[entry.1 as int].data.processor_num == entry.0
    &&& g.nodes@[entry.1 as int].data.num_upwind == 0
    &&& !solved.contains(entry.1)
}

/// One ready entry is sane: a valid unsolved zero-upwind task of its owner,
/// stored under its priority.
pub open spec fn ready_sane(
    g: DependencyGraph,
    solved: Set<usize>,
    procs: Seq<Processor>,
    ii: int,
    v: usize,
) -> bool {
    queued_entry_ok(g, solved, v, ii) && pq_model(procs[ii].queue)[v]
        == g.nodes@[v as int].data.spec_priority()
}

/// Queue sanity of the whole pool against the graph and the solved set.
pub open spec fn inv_procs(
    procs: Seq<Processor>,
    g: DependencyGraph,
    solved: Set<usize>,
    params: ParamFile,
) -> bool {
    &&& forall|i: int|
        0 <= i < procs.len() ==> ((#[trigger] procs[i]).wf() && procs[i].num == i
            && procs[i].param_file == params)
    &&& forall|i: int, v: usize|
        0 <= i < procs.len() && #[trigger] pq_model(procs[i].queue).dom().contains(v) ==> (
        queued_entry_ok(g, solved, v, i) && pq_model(procs[i].queue)[v]
            == g.nodes@[v as int].data.spec_priority())
    &&& forall|i: int, v: usize|
        0 <= i < procs.len() && #[trigger] pq_model(procs[i].receive_queue).dom().contains(v) ==> (
        queued_entry_ok(g, solved, v, i) && pq_model(procs[i].receive_queue)[v]
            == g.nodes@[v as int].data.spec_priority())
    &&& forall|i: int, k: int|
        0 <= i < procs.len() && 0 <= k < procs[i].send_queue@.len() ==> send_entry_ok(
            g,
            solved,
            #[trigger] procs[i].send_queue@[k],
            i,
            procs.len() as int,
        )
}

/// The pool queue holds exactly the awake processors, keyed by their
/// current clocks.
pub open spec fn inv_pool(pool: Map<usize, u64>, procs: Seq<Processor>) -> bool {
    &&& pool.dom().finite()
    &&& forall|p: usize| #[trigger] pool.dom().contains(p) ==> (p as int) < procs.len()
    &&& forall|p: int|
        0 <= p < procs.len() ==> (!(#[trigger] procs[p]).asleep <==> pool.dom().contains(
            p as usize,
        ))
    &&& forall|p: usize|
        #[trigger] pool.dom().contains(p) ==> pool[p] == spec_pool_priority(procs[p as int].time)
}

/// Every unsolved task with no upwind work left sits in exactly one queue;
/// every other task sits in none.
pub open spec fn inv_counts(procs: Seq<Processor>, g: DependencyGraph, solved: Set<usize>) -> bool {
    forall|v: usize|
        v < g.nodes@.len() ==> #[trigger] total_count(procs, v) == (
        if !solved.contains(v) && g.nodes@[v as int].data.num_upwind == 0 {
            1int
        } else {
            0int
        })
}

/// The ghost record of what has been solved: all real tasks, each with its
/// counter at zero.
pub open spec fn inv_solved(g: DependencyGraph, solved: Set<usize>) -> bool {
    &&& solved.finite()
    &&& forall|w: usize|
        #[trigger] solved.contains(w) ==> ((w as int) < g.nodes@.len()
            && g.nodes@[w as int].data.num_upwind == 0)
}

/// With one processor there is never anything to communicate: its clock is
/// exactly its solve count times the solve offset.
pub open spec fn inv_single(procs: Seq<Processor>, params: ParamFile) -> bool {
    procs.len() == 1 ==> (procs[0].time_spent_communicating == 0 && procs[0].time_spent_waiting
        == 0 && pq_model(procs[0].receive_queue) == pq_empty() && procs[0].send_queue@.len() == 0
        && procs[0].time == clip64(procs[0].num_solved * params.solve_time_offset))
}

/// Deadlock: every processor is asleep while unsolved tasks remain. The
/// diagnostic names the count of unsolved tasks, how many processors sleep,
/// and the smallest processor clock.
#[derive(Clone, Copy, PartialEq, Eq, Structural, Debug)]
pub enum SweepError {
    Deadlock { num_unsolved: usize, num_asleep: usize, earliest_time: u64 },
}

/// The sweep: the union task DAG over all directions, the processor pool,
/// and the run configuration.
pub struct Sweep {
    pub graph: DependencyGraph,
    pub processors: Processors,
    pub param_file: ParamFile,
    /// The solved task indices, in solve order: the run's event record.
    pub solve_order: Ghost<Seq<usize>>,
}

impl Sweep {
    /// A sweep that has not started yet: a well-formed DAG whose counters
    /// carry the full upwind counts, fresh processors seeded with exactly
    /// the initially-ready tasks, and every processor queued at time zero.
    pub open spec fn ready_to_run(self) -> bool {
        let g = self.graph;
        let procs = self.processors.processors@;
        let np = procs.len() as int;
        let pool = pq_model(self.processors.queue);
        &&& dep_graph_wf(g)
        &&& graph_tasks_ok(g, np)
        &&& np >= 1
        &&& forall|i: int| 0 <= i < np ==> fresh_proc(#[trigger] procs[i], i, self.param_file)
        &&& forall|i: int, v: usize|
            0 <= i < np ==> (#[trigger] pq_model(procs[i].queue).dom().contains(v) <==> (v
                < g.nodes@.len() && g.nodes@[v as int].data.processor_num == i
                && g.nodes@[v as int].data.num_upwind == 0))
        &&& forall|i: int, v: usize|
            0 <= i < np && #[trigger] pq_model(procs[i].queue).dom().contains(v) ==> pq_model(
                procs[i].queue,
            )[v] == g.nodes@[v as int].data.spec_priority()
        &&& pool.dom().finite()
        &&& forall|p: usize| #[trigger] pool.dom().contains(p) <==> (p as int) < np
        &&& forall|p: usize|
            #[trigger] pool.dom().contains(p) ==> pool[p] == spec_pool_priority(0)
        &&& self.solve_order@ == Seq::<usize>::empty()
    }

    /// Builds the union DAG over every direction and the seeded pool.
    pub fn new(
        param_file: &ParamFile,
        grid: &Grid,
        directions: &Vec<Direction>,
        num_processors: usize,
    ) -> (r: Sweep)
        requires
            grid.wf(),
            num_processors >= 1,
            grid.data.nodes@.len() < crate::task::TASK_PRIORITY_STRIDE,
            directions@.len() <= 0x1_0000_0000,
            directions@.len() * grid.data.nodes@.len() <= usize::MAX,
            forall|d: int|
                0 <= d < directions@.len() ==> (#[trigger] directions@[d]).vector.in_bounds(),
            forall|d: int| 0 <= d < directions@.len() ==> (#[trigger] directions@[d]).index == d,
            forall|i: int|
                0 <= i < grid.data.nodes@.len() ==> (#[trigger] grid.data.nodes@[i]).data.processor_num
                    < num_processors,
        ensures
            r.ready_to_run(),
            r.param_file == *param_file,
            r.processors.processors@.len() == num_processors,
            r.graph.nodes@.len() == directions@.len() * grid.data.nodes@.len(),
            forall|w: int|
                0 <= w < r.graph.nodes@.len() && grid.data.nodes@.len() > 0 ==> {
                    let t = (#[trigger] r.graph.nodes@[w]).data;
                    t.cell == grid.data.nodes@[w % (grid.data.nodes@.len() as int)].data
                        && t.direction == directions@[w / (grid.data.nodes@.len() as int)]
                        && t.processor_num == grid.data.nodes@[w % (grid.data.nodes@.len() as int)].data.processor_num
                },
            forall|d: int|
                0 <= d < directions@.len() ==> block_geometry(
                    r.graph.deps@,
                    grid.data.nodes@,
                    d * (grid.data.nodes@.len() as int),
                    #[trigger] directions@[d],
                    grid.data.nodes@.len() as int,
                    0,
                ),
            forall|jj: int|
                grid.data.nodes@.len() > 0 && 0 <= jj < r.graph.deps@.len()
                    ==> same_direction_dep(
                    #[trigger] r.graph.deps@[jj],
                    grid.data.nodes@.len() as int,
                ),
            forall|a: usize, b: usize|
                grid.data.nodes@.len() > 0 && (a as int) / (grid.data.nodes@.len() as int) != (
                b as int) / (grid.data.nodes@.len() as int) ==> #[trigger] count_from_to(
                    r.graph.deps@,
                    a,
                    b,
                ) == 0,
            forall|j: int|
                0 <= j < r.graph.deps@.len() ==> geometric_rank(r.graph)[(
                #[trigger] r.graph.deps@[j]).0] < geometric_rank(r.graph)[r.graph.deps@[j].1],
    {
        let nc = grid.data.len();
        let ghost ncs = grid.data.nodes@.len() as int;
        let mut g: DependencyGraph = crate::graph::Graph { nodes: Vec::new(), deps: Ghost(Seq::empty()) };
        let mut d: usize = 0;
        while d < directions.len()
            invariant
                d <= directions@.len(),
                nc == grid.data.nodes@.len(),
                ncs == nc as int,
                grid.wf(),
                num_processors >= 1,
                grid.data.nodes@.len() < crate::task::TASK_PRIORITY_STRIDE,
                directions@.len() <= 0x1_0000_0000,
                directions@.len() * ncs <= usize::MAX,
                forall|dd: int|
                    0 <= dd < directions@.len() ==> (#[trigger] directions@[dd]).vector.in_bounds(),
                forall|dd: int|
                    0 <= dd < directions@.len() ==> (#[trigger] directions@[dd]).index == dd,
                forall|i: int|
                    0 <= i < grid.data.nodes@.len() ==> (
                    #[trigger] grid.data.nodes@[i]).data.processor_num < num_processors,
                dep_graph_wf(g),
                g.nodes@.len() == d * ncs,
                forall|w: int|
                    0 <= w < g.nodes@.len() && ncs > 0 ==> {
                        let t = (#[trigger] g.nodes@[w]).data;
                        t.cell == grid.data.nodes@[w % ncs].data && t.direction == directions@[w
                            / ncs] && t.processor_num == grid.data.nodes@[w % ncs].data.processor_num
                    },
                forall|dd: int|
                    0 <= dd < d ==> block_geometry(
                        g.deps@,
                        grid.data.nodes@,
                        dd * ncs,
                        #[trigger] directions@[dd],
                        ncs,
                        0,
                    ),
                forall|jj: int|
                    ncs > 0 && 0 <= jj < g.deps@.len() ==> same_direction_dep(
                        #[trigger] g.deps@[jj],
                        ncs,
                    ),
            decreases directions@.len() - d,
        {
            let dir = directions[d];
            proof {
                assert((d + 1) * ncs == d * ncs + ncs) by (nonlinear_arith);
                assert((d + 1) * ncs <= directions@.len() * ncs) by (nonlinear_arith)
                    requires
                        d + 1 <= directions@.len(),
                        ncs >= 0,
                ;
            }
            let ghost gpre = g;
            append_direction(&mut g, grid, &dir);
            proof {
                let base = d * ncs;
                assert forall|w: int|
                    0 <= w < g.nodes@.len() && ncs > 0 implies {
                    let t = (#[trigger] g.nodes@[w]).data;
                    t.cell == grid.data.nodes@[w % ncs].data && t.direction == directions@[w / ncs]
                        && t.processor_num == grid.data.nodes@[w % ncs].data.processor_num
                } by {
                    if w < base {
                        assert(g.nodes@[w] == gpre.nodes@[w]);
                    } else {
                        vstd::arithmetic::div_mod::lemma_fundamental_div_mod_converse(
                            w,
                            ncs,
                            d as int,
                            w - base,
                        );
                        assert(g.nodes@[w].data.cell == grid.data.nodes@[w - base].data);
                    }
                }
                assert forall|jj: int|
                    ncs > 0 && 0 <= jj < g.deps@.len() implies same_direction_dep(
                    #[trigger] g.deps@[jj],
                    ncs,
                ) by {
                    if jj < gpre.deps@.len() {
                        assert(g.deps@.take(gpre.deps@.len() as int)[jj] == g.deps@[jj]);
                        assert(g.deps@[jj] == gpre.deps@[jj]);
                    } else {
                        assert(gpre.nodes@.len() == base);
                        assert(gpre.deps@.len() <= jj < g.deps@.len());
                        assert(g.deps@[jj].0 >= gpre.nodes@.len());
                        assert(g.deps@[jj].1 >= gpre.nodes@.len());
                        assert(g.deps@[jj].0 >= base && g.deps@[jj].1 >= base);
                        assert((g.deps@[jj].0 as int) < base + ncs && (g.deps@[jj].1 as int) < base
                            + ncs);
                        vstd::arithmetic::div_mod::lemma_fundamental_div_mod_converse(
                            g.deps@[jj].0 as int,
                            ncs,
                            d as int,
                            g.deps@[jj].0 as int - base,
                        );
                        vstd::arithmetic::div_mod::lemma_fundamental_div_mod_converse(
                            g.deps@[jj].1 as int,
                            ncs,
                            d as int,
                            g.deps@[jj].1 as int - base,
                        );
                    }
                }
                assert forall|dd: int| 0 <= dd < d + 1 implies block_geometry(
                    g.deps@,
                    grid.data.nodes@,
                    dd * ncs,
                    #[trigger] directions@[dd],
                    ncs,
                    0,
                ) by {
                    if dd < d {
                        assert forall|a: usize, b: usize|
                            dd * ncs <= a < dd * ncs + ncs && dd * ncs <= b < dd * ncs + ncs
                                implies #[trigger] count_from_to(g.deps@, a, b) == (
                        if a - dd * ncs < ncs {
                            crate::grid::count_downwind(
                                grid.data.nodes@[a - dd * ncs].edges@,
                                b - dd * ncs,
                                directions@[dd],
                            )
                        } else if a - dd * ncs == ncs {
                            crate::grid::count_downwind(
                                grid.data.nodes@[a - dd * ncs].edges@.take(0),
                                b - dd * ncs,
                                directions@[dd],
                            )
                        } else {
                            0int
                        }) by {
                            assert((dd + 1) * ncs <= d * ncs) by (nonlinear_arith)
                                requires
                                    dd + 1 <= d,
                                    ncs >= 0,
                            ;
                            assert(dd * ncs + ncs == (dd + 1) * ncs) by (nonlinear_arith);
                            assert((a as int) < base);
                            assert(count_from_to(g.deps@, a, b) == count_from_to(gpre.deps@, a, b));
                        }
                    }
                }
            }
            d = d + 1;
        }
        proof {
            assert forall|v: int| 0 <= v < g.nodes@.len() implies ((
            #[trigger] g.nodes@[v]).data.processor_num < num_processors
                && g.nodes@[v].data.priority_in_bounds()
                && g.nodes@[v].data.cell.center.in_bounds()) by {
                if ncs > 0 {
                    vstd::arithmetic::div_mod::lemma_mod_bound(v, ncs);
                    vstd::arithmetic::div_mod::lemma_div_pos_is_pos(v, ncs);
                    assert(g.nodes@[v].data.cell == grid.data.nodes@[v % ncs].data);
                    assert(g.nodes@[v].data.cell.global_index == v % ncs);
                    assert(g.nodes@[v].data.direction.index < directions@.len()) by {
                        vstd::arithmetic::div_mod::lemma_fundamental_div_mod(v, ncs);
                        vstd::arithmetic::div_mod::lemma_mod_bound(v, ncs);
                        vstd::arithmetic::div_mod::lemma_div_pos_is_pos(v, ncs);
                        assert(v / ncs < directions@.len()) by (nonlinear_arith)
                            requires
                                ncs >= 1,
                                0 <= v < directions@.len() * ncs,
                                v == ncs * (v / ncs) + v % ncs,
                                0 <= v % ncs < ncs,
                                v / ncs >= 0,
                        ;
                    }
                }
            }
        }
        proof {
            if ncs > 0 {
                assert forall|a: usize, b: usize| (a as int) / ncs != (b as int) / ncs
                    implies #[trigger] count_from_to(g.deps@, a, b) == 0 by {
                    assert forall|jj: int| 0 <= jj < g.deps@.len() implies #[trigger] g.deps@[jj]
                        != (a, b) by {
                        assert(same_direction_dep(g.deps@[jj], ncs));
                    }
                    crate::counting::lemma_count_from_to_zero(g.deps@, a, b);
                }
            }
            // Every recorded dependency climbs along its own direction.
            assert forall|j: int| 0 <= j < g.deps@.len() implies geometric_rank(g)[(
            #[trigger] g.deps@[j]).0] < geometric_rank(g)[g.deps@[j].1] by {
                let a = g.deps@[j].0;
                let b = g.deps@[j].1;
                assert((a as int) < g.nodes@.len() && (b as int) < g.nodes@.len());
                assert(ncs > 0) by {
                    if ncs == 0 {
                        assert(g.nodes@.len() == directions@.len() * 0);
                        assert((a as int) < 0) by (nonlinear_arith)
                            requires
                                (a as int) < directions@.len() * 0,
                        ;
                    }
                }
                assert(same_direction_dep(g.deps@[j], ncs));
                let dd = (a as int) / ncs;
                vstd::arithmetic::div_mod::lemma_fundamental_div_mod(a as int, ncs);
                vstd::arithmetic::div_mod::lemma_mod_bound(a as int, ncs);
                vstd::arithmetic::div_mod::lemma_div_pos_is_pos(a as int, ncs);
                vstd::arithmetic::div_mod::lemma_fundamental_div_mod(b as int, ncs);
                vstd::arithmetic::div_mod::lemma_mod_bound(b as int, ncs);
                vstd::arithmetic::div_mod::lemma_div_pos_is_pos(b as int, ncs);
                assert(dd < directions@.len()) by (nonlinear_arith)
                    requires
                        ncs >= 1,
                        0 <= (a as int) < directions@.len() * ncs,
                        (a as int) == ncs * ((a as int) / ncs) + (a as int) % ncs,
                        0 <= (a as int) % ncs < ncs,
                        dd == (a as int) / ncs,
                        dd >= 0,
                ;
                let base = dd * ncs;
                assert((a as int) == base + (a as int) % ncs && (b as int) == base + (
                b as int) % ncs) by (nonlinear_arith)
                    requires
                        (a as int) == ncs * ((a as int) / ncs) + (a as int) % ncs,
                        (b as int) == ncs * ((b as int) / ncs) + (b as int) % ncs,
                        dd == (a as int) / ncs,
                        dd == (b as int) / ncs,
                        base == dd * ncs,
                ;
                assert(block_geometry(g.deps@, grid.data.nodes@, base, directions@[dd], ncs, 0));
                crate::counting::lemma_count_from_to_elem(g.deps@, j);
                let ma = (a as int) - base;
                let mb = (b as int) - base;
                assert(count_from_to(g.deps@, a, b) == crate::grid::count_downwind(
                    grid.data.nodes@[ma].edges@,
                    mb,
                    directions@[dd],
                ));
                let k = crate::grid::lemma_count_downwind_witness(
                    grid.data.nodes@[ma].edges@,
                    mb,
                    directions@[dd],
                );
                assert(grid.data.nodes@[ma].edges@[k].label == crate::grid::spec_face_between(
                    grid.data.nodes@[ma].data,
                    grid.data.nodes@[mb].data,
                ));
                crate::grid::lemma_downwind_orders_centers(
                    grid.data.nodes@[ma].data,
                    grid.data.nodes@[mb].data,
                    directions@[dd],
                );
                assert(g.nodes@[a as int].data.cell == grid.data.nodes@[(a as int) % ncs].data);
                assert(g.nodes@[b as int].data.cell == grid.data.nodes@[(b as int) % ncs].data);
                assert(g.nodes@[a as int].data.direction == directions@[(a as int) / ncs]);
                assert(g.nodes@[b as int].data.direction == directions@[(b as int) / ncs]);
                assert((a as int) % ncs == ma && (b as int) % ncs == mb);
            }
        }
        let processors = Processors::new(&g, num_processors, param_file);
        Sweep { graph: g, processors, param_file: *param_file, solve_order: Ghost(Seq::empty()) }
    }
}



/// Pool sanity while processor `i` is checked out of the queue.
pub open spec fn inv_pool_except(pool: Map<usize, u64>, procs: Seq<Processor>, i: int) -> bool {
    &&& pool.dom().finite()
    &&& forall|p: usize| #[trigger] pool.dom().contains(p) ==> (p as int) < procs.len()
    &&& !pool.dom().contains(i as usize)
    &&& forall|p: int|
        0 <= p < procs.len() && p != i ==> (!(#[trigger] procs[p]).asleep <==> pool.dom().contains(
            p as usize,
        ))
    &&& forall|p: usize|
        #[trigger] pool.dom().contains(p) ==> pool[p] == spec_pool_priority(procs[p as int].time)
}

/// Pool-wide communication debt is nonnegative.
pub proof fn lemma_sum_weight_nonneg(procs: Seq<Processor>)
    ensures
        sum_weight(procs) >= 0,
    decreases procs.len(),
{
    if procs.len() > 0 {
        lemma_sum_weight_nonneg(procs.drop_first());
    }
}


/// How many tasks of the store have no upwind work left.
pub open spec fn count_settled(nodes: Seq<Node<Task, Dependency>>) -> int
    decreases nodes.len(),
{
    if nodes.len() == 0 {
        0
    } else {
        count_settled(nodes.drop_last()) + b2i(nodes.last().data.num_upwind == 0)
    }
}

/// A finite set holding exactly the zero-counter task indices has
/// `count_settled` elements.
pub proof fn lemma_count_settled_card(nodes: Seq<Node<Task, Dependency>>, s: Set<usize>)
    requires
        nodes.len() <= usize::MAX,
        s.finite(),
        forall|v: usize|
            #[trigger] s.contains(v) <==> ((v as int) < nodes.len() && nodes[v as int].data.num_upwind
                == 0),
    ensures
        s.len() == count_settled(nodes),
    decreases nodes.len(),
{
    broadcast use vstd::set_lib::group_set_properties;

    if nodes.len() == 0 {
        assert(s =~= Set::<usize>::empty());
    } else {
        let m = nodes.len() - 1;
        let last_settled = nodes[m].data.num_upwind == 0;
        let t = if last_settled {
            s.remove(m as usize)
        } else {
            s
        };
        assert forall|v: usize| #[trigger] t.contains(v) <==> ((v as int) < nodes.drop_last().len()
            && nodes.drop_last()[v as int].data.num_upwind == 0) by {
            if (v as int) < m {
                assert(nodes.drop_last()[v as int] == nodes[v as int]);
            }
        }
        lemma_count_settled_card(nodes.drop_last(), t);
        if last_settled {
            assert(s.contains(m as usize));
            assert(s.len() == t.len() + 1);
        }
    }
}

/// Both ends of a recorded dependency lie in the same direction's block of
/// `nc` tasks: dependencies never join tasks of different directions.
pub open spec fn same_direction_dep(dep: (usize, usize), nc: int) -> bool {
    (dep.0 as int) / nc == (dep.1 as int) / nc
}

/// Where a task's cell lies along its own sweep direction: the rank that
/// orders every recorded dependency of a freshly built graph.
pub open spec fn task_rank(g: DependencyGraph, w: int) -> int {
    g.nodes@[w].data.cell.center.spec_dot(g.nodes@[w].data.direction.vector)
}

/// The geometry's rank for the whole store, as a map.
pub open spec fn geometric_rank(g: DependencyGraph) -> Map<usize, int> {
    Map::new(|w: usize| true, |w: usize| task_rank(g, w as int))
}

/// `v` appears somewhere in the trace.
pub open spec fn trace_contains(trace: Seq<usize>, v: usize) -> bool {
    exists|q: int| 0 <= q < trace.len() && trace[q] == v
}

/// `v` appears in the trace strictly before position `p`.
pub open spec fn appears_before(trace: Seq<usize>, p: int, v: usize) -> bool {
    exists|q: int| 0 <= q < p && trace[q] == v
}

/// The trace solves every task after all its upwind work: for every
/// recorded dependency, the source is solved before the target.
pub open spec fn sources_precede(trace: Seq<usize>, deps: Seq<(usize, usize)>) -> bool {
    forall|j: int, p: int|
        0 <= j < deps.len() && 0 <= p < trace.len() && (#[trigger] deps[j]).1 == #[trigger] trace[p]
            ==> appears_before(trace, p, deps[j].0)
}

/// Task `v` still waits, and so does one of its upwind predecessors.
pub open spec fn has_waiting_predecessor(g: DependencyGraph, v: int) -> bool {
    exists|j: int|
        0 <= j < g.deps@.len() && (#[trigger] g.deps@[j]).1 == v && g.nodes@[g.deps@[j].0 as int].data.num_upwind
            > 0
}

/// No waiting task can ever be freed: every task with upwind work left
/// depends on another such task. Only a dependency cycle leaves a graph in
/// this state, so a run over an acyclic graph never reports deadlock.
pub open spec fn stuck_graph(g: DependencyGraph) -> bool {
    forall|v: int|
        0 <= v < g.nodes@.len() && (#[trigger] g.nodes@[v]).data.num_upwind > 0
            ==> has_waiting_predecessor(g, v)
}


/// The element of a finite, nonempty set with the smallest rank.
proof fn extract_min_rank(s: Set<usize>, rank: Map<usize, int>) -> (m: usize)
    requires
        s.finite(),
        s.len() > 0,
    ensures
        s.contains(m),
        forall|v: usize| s.contains(v) ==> rank[m] <= rank[v],
    decreases s.len(),
{
    broadcast use vstd::set_lib::group_set_properties;

    assert(!(s =~= Set::<usize>::empty()));
    let x = choose|x: usize| s.contains(x);
    let rest = s.remove(x);
    if rest.len() == 0 {
        assert forall|v: usize| s.contains(v) implies rank[x] <= rank[v] by {
            if v != x {
                assert(rest.contains(v));
                rest.lemma_len0_is_empty();
                assert(false);
            }
        }
        x
    } else {
        let m2 = extract_min_rank(rest, rank);
        let m = if rank[m2] <= rank[x] {
            m2
        } else {
            x
        };
        assert forall|v: usize| s.contains(v) implies rank[m] <= rank[v] by {
            if v != x {
                assert(rest.contains(v));
            }
        }
        m
    }
}

/// A store where nothing waits is fully settled.
pub proof fn lemma_count_settled_full(nodes: Seq<Node<Task, Dependency>>)
    requires
        forall|v: int| 0 <= v < nodes.len() ==> (#[trigger] nodes[v]).data.num_upwind == 0,
    ensures
        count_settled(nodes) == nodes.len(),
    decreases nodes.len(),
{
    if nodes.len() > 0 {
        lemma_count_settled_full(nodes.drop_last());
    }
}

/// A graph whose recorded dependencies admit a strictly increasing rank is
/// acyclic, and an acyclic graph can only be stuck with nothing left
/// waiting: every task is settled. Together with [`run_deadlock_post`],
/// which reports unsolved work and a stuck graph, a deadlock report on such
/// a graph is impossible: the sweep completes every run whose dependencies
/// admit a rank.
pub proof fn lemma_ranked_graph_never_stuck(g: DependencyGraph, rank: Map<usize, int>)
    requires
        g.nodes@.len() <= usize::MAX,
        forall|j: int|
            0 <= j < g.deps@.len() ==> (#[trigger] g.deps@[j]).0 < g.nodes@.len()
                && g.deps@[j].1 < g.nodes@.len(),
        forall|j: int|
            0 <= j < g.deps@.len() ==> rank[(#[trigger] g.deps@[j]).0] < rank[g.deps@[j].1],
        stuck_graph(g),
    ensures
        forall|v: int| 0 <= v < g.nodes@.len() ==> (#[trigger] g.nodes@[v]).data.num_upwind == 0,
        count_settled(g.nodes@) == g.nodes@.len(),
{
    let n = g.nodes@.len() as int;
    let waiting = Set::new(
        |v: usize| (v as int) < n && g.nodes@[v as int].data.num_upwind > 0,
    );
    lemma_below_set_len(n);
    assert(waiting.subset_of(below_set(n)));
    vstd::set_lib::lemma_len_subset(waiting, below_set(n));
    assert forall|w: int| 0 <= w < g.nodes@.len() implies (
    #[trigger] g.nodes@[w]).data.num_upwind == 0 by {
        if g.nodes@[w].data.num_upwind > 0 {
            assert(waiting.contains(w as usize));
            assert(waiting.len() > 0) by {
                broadcast use vstd::set_lib::group_set_properties;

                if waiting.len() == 0 {
                    waiting.lemma_len0_is_empty();
                }
            }
            let m = extract_min_rank(waiting, rank);
            assert(has_waiting_predecessor(g, m as int));
            let j = choose|j: int|
                0 <= j < g.deps@.len() && (#[trigger] g.deps@[j]).1 == m as int
                    && g.nodes@[g.deps@[j].0 as int].data.num_upwind > 0;
            let u = g.deps@[j].0;
            assert(waiting.contains(u));
            assert(rank[m] <= rank[u]);
            assert(rank[u] < rank[g.deps@[j].1]);
            assert(g.deps@[j].1 == m);
            assert(false);
        }
    }
    lemma_count_settled_full(g.nodes@);
}


/// Success is owed: a run over a graph whose recorded dependencies climb a
/// rank cannot end in a deadlock report. `Sweep::new` supplies such a rank
/// (the geometric one) for every graph it builds, so every freshly built
/// sweep returns statistics.
pub proof fn lemma_ranked_run_completes(
    s0: Sweep,
    s1: Sweep,
    rank: Map<usize, int>,
    r: Result<RunData, SweepError>,
)
    requires
        s0.graph.nodes@.len() <= usize::MAX,
        forall|j: int|
            0 <= j < s0.graph.deps@.len() ==> (#[trigger] s0.graph.deps@[j]).0
                < s0.graph.nodes@.len() && s0.graph.deps@[j].1 < s0.graph.nodes@.len(),
        forall|j: int|
            0 <= j < s0.graph.deps@.len() ==> rank[(#[trigger] s0.graph.deps@[j]).0]
                < rank[s0.graph.deps@[j].1],
        graph_frame(s1.graph, s0.graph),
        match r {
            Ok(_) => true,
            Err(e) => (match e {
                SweepError::Deadlock { num_unsolved, num_asleep, earliest_time } => run_deadlock_post(
                    s0,
                    s1,
                    num_unsolved,
                    num_asleep,
                    earliest_time,
                ),
            }),
        },
    ensures
        r is Ok,
{
    if r is Err {
        match r->Err_0 {
            SweepError::Deadlock { num_unsolved, num_asleep, earliest_time } => {
                assert(stuck_graph(s1.graph));
                assert(s1.graph.deps@ == s0.graph.deps@);
                lemma_ranked_graph_never_stuck(s1.graph, rank);
                assert(count_settled(s1.graph.nodes@) == s1.graph.nodes@.len());
                assert(num_unsolved == 0);
                assert(false);
            },
        }
    }
}

/// A sleeping processor holds nothing: it emptied its queues on the way
/// down and is only handed work again by the wake that follows a send.
pub open spec fn inv_asleep(procs: Seq<Processor>) -> bool {
    forall|i: int|
        0 <= i < procs.len() && (#[trigger] procs[i]).asleep ==> (pq_model(procs[i].queue)
            == pq_empty() && pq_model(procs[i].receive_queue) == pq_empty()
            && procs[i].send_queue@.len() == 0)
}

/// What a successful run promises: every task solved exactly once, the
/// reported wall time the largest clock, the reported communication and
/// idle times its floored means, no clock or cost beyond the wall time, and
/// a single processor running compute-only at exactly one solve offset per
/// task.
pub open spec fn run_ok_post(s0: Sweep, s1: Sweep, rd: RunData) -> bool {
    let procs = s1.processors.processors@;
    let n = s0.graph.nodes@.len() as int;
    &&& sum_solved(procs) == n
    &&& rd.num_processors == procs.len()
    &&& rd.time == max_time(procs)
    &&& rd.time_spent_communicating == clip64(sum_comm(procs)) / (procs.len() as int)
    &&& rd.time_spent_waiting == clip64(sum_wait(procs)) / (procs.len() as int)
    &&& forall|i: int|
        0 <= i < procs.len() ==> ((#[trigger] procs[i]).time <= rd.time
            && procs[i].time_spent_communicating <= rd.time && procs[i].time_spent_waiting
            <= rd.time)
    &&& (procs.len() == 1 ==> (rd.time == clip64(n * s0.param_file.solve_time_offset)
        && rd.time_spent_communicating == 0 && rd.time_spent_waiting == 0
        && procs[0].time_spent_communicating == 0 && procs[0].time_spent_waiting == 0))
    &&& s1.solve_order@.len() == n
    &&& forall|p1: int, p2: int|
        0 <= p1 < p2 < s1.solve_order@.len() ==> s1.solve_order@[p1] != s1.solve_order@[p2]
    &&& forall|p: int|
        0 <= p < s1.solve_order@.len() ==> (#[trigger] s1.solve_order@[p] as int)
            < s1.graph.nodes@.len()
    &&& sources_precede(s1.solve_order@, s1.graph.deps@)
}

/// What a deadlock report promises: work remained, every processor was
/// asleep, the reported smallest clock is one of the clocks, and the final
/// graph certifies that the run was truly stuck: every task that was not
/// solved still waits on another waiting task, so the recorded dependencies
/// contain a cycle. A run on an acyclic graph therefore never ends here.
pub open spec fn run_deadlock_post(
    s0: Sweep,
    s1: Sweep,
    num_unsolved: usize,
    num_asleep: usize,
    earliest_time: u64,
) -> bool {
    let procs = s1.processors.processors@;
    &&& num_unsolved > 0
    &&& num_unsolved == s0.graph.nodes@.len() - sum_solved(procs)
    &&& num_asleep == procs.len()
    &&& forall|i: int| 0 <= i < procs.len() ==> (#[trigger] procs[i]).asleep
    &&& forall|i: int| 0 <= i < procs.len() ==> earliest_time <= (#[trigger] procs[i]).time
    &&& exists|i: int| 0 <= i < procs.len() && (#[trigger] procs[i]).time == earliest_time
    &&& count_settled(s1.graph.nodes@) == sum_solved(procs)
    &&& stuck_graph(s1.graph)
}

impl Sweep {
    /// Runs the sweep to completion: repeatedly advance the awake processor
    /// with the smallest clock, solve its best ready task, and drain its
    /// communication queues when it runs out of work or exceeds the batch
    /// size. Ends when every task is solved, or with a deadlock report when
    /// every processor sleeps while work remains.
    #[verifier::rlimit(100)]
    #[verifier::spinoff_prover]
    pub fn run(&mut self) -> (r: Result<RunData, SweepError>)
        requires
            old(self).ready_to_run(),
        ensures
            final(self).param_file == old(self).param_file,
            final(self).processors.processors@.len() == old(self).processors.processors@.len(),
            graph_frame(final(self).graph, old(self).graph),
            forall|i: int|
                0 <= i < old(self).processors.processors@.len() ==> (#[trigger] final(self).processors.processors@[i]).time
                    >= old(self).processors.processors@[i].time,
            match r {
                Ok(rd) => run_ok_post(*old(self), *final(self), rd),
                Err(e) => (match e {
                    SweepError::Deadlock { num_unsolved, num_asleep, earliest_time } => run_deadlock_post(
                        *old(self),
                        *final(self),
                        num_unsolved,
                        num_asleep,
                        earliest_time,
                    ),
                }),
            },
    {
        let ghost g0 = self.graph;
        let ghost params0 = self.param_file;
        let np = self.processors.len();
        let n = self.graph.len();
        let mut num_to_solve: usize = n;
        let mut num_solved_without_sending: usize = 0;
        let ghost mut solved: Set<usize> = Set::empty();
        proof {
            assert forall|v: usize| v < g0.nodes@.len() implies #[trigger] total_count(
                self.processors.processors@,
                v,
            ) == (if !solved.contains(v) && self.graph.nodes@[v as int].data.num_upwind == 0 {
                1int
            } else {
                0int
            }) by {
                let procs = self.processors.processors@;
                let owner = g0.nodes@[v as int].data.processor_num;
                assert forall|j: int| 0 <= j < procs.len() && j != owner implies local_count(
                    #[trigger] procs[j],
                    v,
                ) == 0 by {
                    assert(!pq_model(procs[j].queue).dom().contains(v));
                    assert(!pq_model(procs[j].receive_queue).dom().contains(v));
                    assert(count_carrying(procs[j].send_queue@, v) == 0);
                }
                lemma_total_count_single(procs, owner as int, v);
                assert(!pq_model(procs[owner as int].receive_queue).dom().contains(v));
                assert(count_carrying(procs[owner as int].send_queue@, v) == 0);
            }
            assert forall|j: int|
                0 <= j < self.processors.processors@.len() implies (
            #[trigger] self.processors.processors@[j]).num_solved == 0 by {}
            lemma_sum_solved_zero(self.processors.processors@);
            assert(Set::<usize>::empty().len() == 0);
            assert forall|v: usize| #[trigger] solved.contains(v) <==> trace_contains(
                self.solve_order@,
                v,
            ) by {
                assert(!solved.contains(v));
                if trace_contains(self.solve_order@, v) {
                    let q = choose|q: int|
                        0 <= q < self.solve_order@.len() && self.solve_order@[q] == v;
                    assert(false);
                }
            }
        }
        loop
            invariant_except_break
                g0 == old(self).graph,
                params0 == old(self).param_file,
                np == old(self).processors.processors@.len(),
                self.param_file == params0,
                self.processors.processors@.len() == np,
                np >= 1,
                n == g0.nodes@.len(),
                n == self.graph.nodes@.len(),
                dep_graph_wf(g0),
                graph_tasks_ok(g0, np as int),
                graph_frame(self.graph, g0),
                inv_upwind(self.graph, solved),
                inv_solved(self.graph, solved),
                inv_procs(self.processors.processors@, self.graph, solved, params0),
                inv_pool(pq_model(self.processors.queue), self.processors.processors@),
                inv_counts(self.processors.processors@, self.graph, solved),
                inv_single(self.processors.processors@, params0),
                inv_asleep(self.processors.processors@),
                sum_solved(self.processors.processors@) == solved.len(),
                num_to_solve as int == n - solved.len(),
                num_solved_without_sending <= solved.len(),
                num_to_solve == 0 ==> pq_model(self.processors.queue).dom().contains(0usize),
                self.solve_order@.len() == solved.len(),
                forall|v: usize|
                    #[trigger] solved.contains(v) <==> trace_contains(self.solve_order@, v),
                forall|p1: int, p2: int|
                    0 <= p1 < p2 < self.solve_order@.len() ==> self.solve_order@[p1]
                        != self.solve_order@[p2],
                forall|p: int|
                    0 <= p < self.solve_order@.len() ==> (#[trigger] self.solve_order@[p] as int)
                        < n,
                sources_precede(self.solve_order@, self.graph.deps@),
                forall|x: int|
                    0 <= x < np ==> (#[trigger] old(self).processors.processors@[x]).time == 0,
            ensures
                num_to_solve == 0,
                g0 == old(self).graph,
                params0 == old(self).param_file,
                np == old(self).processors.processors@.len(),
                self.param_file == params0,
                self.processors.processors@.len() == np,
                n == g0.nodes@.len(),
                graph_frame(self.graph, g0),
                inv_procs(self.processors.processors@, self.graph, solved, params0),
                inv_single(self.processors.processors@, params0),
                sum_solved(self.processors.processors@) == solved.len(),
                num_to_solve as int == n - solved.len(),
                self.solve_order@.len() == solved.len(),
                forall|v: usize|
                    #[trigger] solved.contains(v) <==> trace_contains(self.solve_order@, v),
                forall|p1: int, p2: int|
                    0 <= p1 < p2 < self.solve_order@.len() ==> self.solve_order@[p1]
                        != self.solve_order@[p2],
                forall|p: int|
                    0 <= p < self.solve_order@.len() ==> (#[trigger] self.solve_order@[p] as int)
                        < n,
                sources_precede(self.solve_order@, self.graph.deps@),
            decreases
                num_to_solve,
                sum_weight(self.processors.processors@),
                pq_model(self.processors.queue).dom().len(),
        {
            proof {
                lemma_sum_weight_nonneg(self.processors.processors@);
            }
            let ghost procs_at_head = self.processors.processors@;
            let ghost pool_at_head = pq_model(self.processors.queue);
            let ghost graph_at_head = self.graph;
            let popped = self.processors.get_next_free();
            let i: usize = match popped {
                Some(idx) => idx,
                None => {
                    proof {
                        broadcast use vstd::set_lib::group_set_properties;

                        assert(pool_at_head =~= pq_empty());
                        assert(!pool_at_head.dom().contains(0usize));
                        assert(num_to_solve > 0);
                        assert forall|x: int| 0 <= x < np implies (
                        #[trigger] self.processors.processors@[x]).asleep by {
                            assert(!pool_at_head.dom().contains(x as usize));
                        }
                        // With every processor asleep, every queue is empty,
                        // so a task with its counter at zero must be solved.
                        let procs = self.processors.processors@;
                        assert forall|v: usize| v < n && self.graph.nodes@[v as int].data.num_upwind
                            == 0 implies #[trigger] solved.contains(v) by {
                            if !solved.contains(v) {
                                assert forall|x: int| 0 <= x < np implies local_count(
                                    #[trigger] procs[x],
                                    v,
                                ) == 0 by {
                                    assert(procs[x].asleep);
                                    assert(!pq_model(procs[x].queue).dom().contains(v));
                                    assert(!pq_model(procs[x].receive_queue).dom().contains(v));
                                    assert(procs[x].send_queue@ =~= Seq::<(usize, usize)>::empty());
                                }
                                lemma_total_count_zero(procs, v);
                                assert(false);
                            }
                        }
                        assert forall|v: usize| #[trigger] solved.contains(v) <==> ((v as int)
                            < self.graph.nodes@.len() && self.graph.nodes@[v as int].data.num_upwind
                            == 0) by {}
                        lemma_count_settled_card(self.graph.nodes@, solved);
                        assert(count_settled(self.graph.nodes@) == sum_solved(procs));
                        assert forall|v: int|
                            0 <= v < self.graph.nodes@.len() && (
                        #[trigger] self.graph.nodes@[v]).data.num_upwind > 0
                            implies has_waiting_predecessor(self.graph, v) by {
                            assert(self.graph.nodes@[v].data.num_upwind == count_unsolved_to(
                                self.graph.deps@,
                                solved,
                                v as usize,
                            ));
                            let j = lemma_count_unsolved_witness(
                                self.graph.deps@,
                                solved,
                                v as usize,
                            );
                            let u = self.graph.deps@[j].0;
                            assert(g0.deps@[j].0 < n && g0.deps@[j].1 < n);
                            assert(self.graph.nodes@[u as int].data.num_upwind > 0);
                            assert(0 <= j < self.graph.deps@.len() && self.graph.deps@[j].1
                                == v && self.graph.nodes@[self.graph.deps@[j].0 as int].data.num_upwind
                                > 0);
                        }
                        assert(stuck_graph(self.graph));
                    }
                    let np_exec = self.processors.len();
                    let mut earliest: u64 = self.processors.get(0).time;
                    let mut j: usize = 1;
                    while j < np_exec
                        invariant
                            1 <= j <= np_exec,
                            np_exec == np,
                            np_exec == self.processors.processors@.len(),
                            np == old(self).processors.processors@.len(),
                            g0 == old(self).graph,
                            params0 == old(self).param_file,
                            self.param_file == params0,
                            n == g0.nodes@.len(),
                            graph_frame(self.graph, g0),
                            num_to_solve > 0,
                            num_to_solve as int == n - solved.len(),
                            sum_solved(self.processors.processors@) == solved.len(),
                            count_settled(self.graph.nodes@) == sum_solved(
                                self.processors.processors@,
                            ),
                            stuck_graph(self.graph),
                            forall|x: int|
                                0 <= x < np ==> (#[trigger] old(self).processors.processors@[x]).time
                                    == 0,
                            forall|x: int|
                                0 <= x < np_exec ==> (
                                #[trigger] self.processors.processors@[x]).asleep,
                            forall|x: int|
                                0 <= x < j ==> earliest <= (
                                #[trigger] self.processors.processors@[x]).time,
                            exists|x: int|
                                0 <= x < j && (#[trigger] self.processors.processors@[x]).time
                                    == earliest,
                        decreases np_exec - j,
                    {
                        let pt = self.processors.get(j).time;
                        if pt < earliest {
                            earliest = pt;
                        }
                        j = j + 1;
                    }
                    return Err(
                        SweepError::Deadlock {
                            num_unsolved: num_to_solve,
                            num_asleep: np_exec,
                            earliest_time: earliest,
                        },
                    );
                },
            };
            proof {
                assert(pool_at_head.dom().contains(i));
                assert((i as int) < np);
                assert(!procs_at_head[i as int].asleep);
            }
            let current_time = self.processors.get(i).time;
            let batch_size = self.param_file.batch_size;
            let ghost solved_pre = solved;
            let p = self.processors.proc_mut(i);
            let ghost p_head = *p;
            let task_opt = p.get_next_task();
            let ghost p1 = *p;
            let ghost g_pre = self.graph;
            let mut asleep_now = false;
            let mut sent: Vec<(usize, usize)> = Vec::new();
            match task_opt {
                Some(task_index) => {
                    proof {
                        assert(pq_model(p_head.queue).dom().contains(task_index));
                        assert(queued_entry_ok(self.graph, solved, task_index, i as int));
                        lemma_sum_solved_bound(procs_at_head, i as int);
                        lemma_solved_missing(solved, n as int, task_index);
                        assert forall|v: int| 0 <= v < n implies (
                        #[trigger] self.graph.nodes@[v]).index == v by {}
                        assert forall|u: usize, v: usize| u < n && v < n
                            implies #[trigger] count_from_to(self.graph.deps@, u, v)
                            == count_targets(self.graph.nodes@[u as int].edges@, v) by {
                            assert(self.graph.nodes@[u as int].edges@ == g0.nodes@[u as int].edges@);
                        }
                        assert forall|v: int| 0 <= v < n implies ((
                        #[trigger] self.graph.nodes@[v]).data.processor_num < np
                            && self.graph.nodes@[v].data.priority_in_bounds()) by {
                            assert(g0.nodes@[v].data.processor_num < np);
                            assert(g0.nodes@[v].data.priority_in_bounds());
                        }
                    }
                    handle_task_solving(
                        &mut self.graph,
                        p,
                        task_index,
                        Ghost(solved),
                        Ghost(np as int),
                    );
                    proof {
                        let t0 = self.solve_order@;
                        self.solve_order@ = self.solve_order@.push(task_index);
                        solved = solved.insert(task_index);
                        assert(solved.len() == solved_pre.len() + 1);
                        let t1 = self.solve_order@;
                        assert(t1.len() == t0.len() + 1 && t1[t0.len() as int] == task_index);
                        assert(forall|p: int| 0 <= p < t0.len() ==> t1[p] == t0[p]);
                        assert(!trace_contains(t0, task_index));
                        assert forall|p1: int, p2: int| 0 <= p1 < p2 < t1.len() implies t1[p1]
                            != t1[p2] by {
                            if p2 == t0.len() as int {
                                if t1[p1] == task_index {
                                    assert(trace_contains(t0, task_index));
                                }
                            }
                        }
                        assert forall|v: usize| #[trigger] solved.contains(v) <==> trace_contains(
                            t1,
                            v,
                        ) by {
                            if solved.contains(v) {
                                if v == task_index {
                                    assert(t1[t0.len() as int] == v);
                                    assert(trace_contains(t1, v));
                                } else {
                                    assert(solved_pre.contains(v));
                                    let q = choose|q: int| 0 <= q < t0.len() && t0[q] == v;
                                    assert(t1[q] == v);
                                    assert(trace_contains(t1, v));
                                }
                            }
                            if trace_contains(t1, v) {
                                let q = choose|q: int| 0 <= q < t1.len() && t1[q] == v;
                                if q < t0.len() {
                                    assert(t0[q] == v);
                                    assert(trace_contains(t0, v));
                                    assert(solved_pre.contains(v));
                                } else {
                                    assert(v == task_index);
                                }
                                assert(solved.contains(v));
                            }
                        }
                        // Everything upwind of the solved task came earlier.
                        assert(count_unsolved_to(self.graph.deps@, solved_pre, task_index) == 0);
                        crate::counting::lemma_count_unsolved_zero_sources(
                            self.graph.deps@,
                            solved_pre,
                            task_index,
                        );
                        assert forall|j: int, p: int|
                            0 <= j < self.graph.deps@.len() && 0 <= p < t1.len() && (
                        #[trigger] self.graph.deps@[j]).1 == #[trigger] t1[p]
                            implies appears_before(t1, p, self.graph.deps@[j].0) by {
                            if p < t0.len() {
                                assert(t0[p] == t1[p]);
                                assert(appears_before(t0, p, self.graph.deps@[j].0));
                                let q = choose|q: int|
                                    0 <= q < p && t0[q] == self.graph.deps@[j].0;
                                assert(t1[q] == self.graph.deps@[j].0);
                            } else {
                                assert(t1[p] == task_index);
                                assert(solved_pre.contains(self.graph.deps@[j].0));
                                let q = choose|q: int|
                                    0 <= q < t0.len() && t0[q] == self.graph.deps@[j].0;
                                assert(t1[q] == self.graph.deps@[j].0);
                            }
                        }
                        assert(sources_precede(t1, self.graph.deps@));
                        // Everything solved keeps a zero counter.
                        assert forall|w: usize| #[trigger] solved.contains(w) implies ((w as int)
                            < n && self.graph.nodes@[w as int].data.num_upwind == 0) by {
                            lemma_count_unsolved_insert(self.graph.deps@, solved_pre, task_index, w);
                            lemma_count_from_to_nonneg(self.graph.deps@, task_index, w);
                            lemma_count_unsolved_nonneg(self.graph.deps@, solved, w);
                            if w == task_index {
                                assert(count_unsolved_to(self.graph.deps@, solved_pre, w) == 0);
                            } else {
                                assert(g_pre.nodes@[w as int].data.num_upwind == 0);
                            }
                        }
                    }
                    num_to_solve = num_to_solve - 1;
                    num_solved_without_sending = num_solved_without_sending + 1;
                },
                None => {},
            }
            let ghost p2 = *p;
            let ghost g_now = self.graph;
            let flush = task_opt.is_none() || num_solved_without_sending >= batch_size;
            let mut num_received: usize = 0;
            if flush {
                num_solved_without_sending = 0;
                num_received = p.receive_tasks();
                if num_received == 0 && task_opt.is_none() {
                    p.go_to_sleep();
                    asleep_now = true;
                }
                sent = p.send_tasks();
            }
            proof {
                assert(self.processors.processors@ == procs_at_head.update(
                    i as int,
                    self.processors.processors@[i as int],
                ));
            }
            let ghost procs_mid = self.processors.processors@;
            let ghost p_mid = procs_mid[i as int];
            proof {
                broadcast use vstd::set_lib::group_set_properties;

                assert(p_head == procs_at_head[i as int]);
                lemma_sum_solved_update(procs_at_head, i as int, p_mid);
                lemma_sum_weight_update(procs_at_head, i as int, p_mid);
                // Step accounting for the checked-out processor: what the
                // pop, the solve, the receive drain and the send drain each
                // did to how often it holds each task.
                assert forall|v: usize| v < n implies #[trigger] total_count(procs_mid, v)
                    + count_carrying(sent@, v) == (if !solved.contains(v)
                    && self.graph.nodes@[v as int].data.num_upwind == 0 {
                    1int
                } else {
                    0int
                }) by {
                    lemma_total_count_update(procs_at_head, i as int, p_mid, v);
                    assert forall|x: int| 0 <= x < np implies local_count(
                        #[trigger] procs_at_head[x],
                        v,
                    ) >= 0 by {
                        lemma_local_count_nonneg(procs_at_head[x], v);
                    }
                    lemma_total_count_bound(procs_at_head, i as int, v);
                    lemma_count_carrying_nonneg(p_head.send_queue@, v);
                    let expected_head: int = if !solved_pre.contains(v)
                        && graph_at_head.nodes@[v as int].data.num_upwind == 0 {
                        1int
                    } else {
                        0int
                    };
                    assert(total_count(procs_at_head, v) == expected_head);
                    let ghost was_popped: bool = task_opt is Some && v == task_opt->Some_0;
                    let ghost nl: bool = task_opt is Some && newly_ready_local(
                        g_pre,
                        g_now,
                        task_opt->Some_0,
                        v,
                        p_head.num,
                    );
                    let ghost nr: bool = task_opt is Some && newly_ready_remote(
                        g_pre,
                        g_now,
                        task_opt->Some_0,
                        v,
                        p_head.num,
                    );
                    // After the pop and the solve.
                    if task_opt is Some {
                        let t = task_opt->Some_0;
                        assert(local_count(p1, v) == local_count(p_head, v) - b2i(was_popped));
                        if nl || nr {
                            assert(g_pre.nodes@[v as int].data.num_upwind > 0);
                            assert(!pq_model(p_head.queue).dom().contains(v));
                            assert(!pq_model(p1.queue).dom().contains(v));
                            assert(!solved_pre.contains(v));
                        }
                        assert(local_count(p2, v) == local_count(p1, v) + b2i(nl) + b2i(nr));
                        assert(count_carrying(p2.send_queue@, v) == count_carrying(
                            p_head.send_queue@,
                            v,
                        ) + b2i(nr));
                        // How the expectation moved.
                        lemma_count_unsolved_insert(self.graph.deps@, solved_pre, t, v);
                        lemma_count_from_to_nonneg(self.graph.deps@, t, v);
                        lemma_count_unsolved_nonneg(self.graph.deps@, solved, v);
                        if was_popped {
                            assert(queued_entry_ok(graph_at_head, solved_pre, v, i as int));
                            assert(!nl && !nr);
                        }
                    } else {
                        assert(p2 == p1);
                        assert(pq_model(p1.queue) == pq_model(p_head.queue));
                        assert(p1.receive_queue == p_head.receive_queue);
                        assert(p1.send_queue == p_head.send_queue);
                        assert(local_count(p2, v) == local_count(p_head, v));
                    }
                    // After the drains.
                    if flush {
                        if pq_model(p2.queue).dom().contains(v) && pq_model(
                            p2.receive_queue,
                        ).dom().contains(v) {
                            assert(pq_model(p_head.receive_queue).dom().contains(v));
                            if pq_model(p_head.queue).dom().contains(v) {
                                assert(local_count(p_head, v) >= 2);
                                assert(false);
                            } else {
                                assert(nl);
                                assert(queued_entry_ok(graph_at_head, solved_pre, v, i as int));
                                assert(false);
                            }
                        }
                        assert(pq_model(p_mid.queue).dom().contains(v) <==> (pq_model(
                            p2.queue,
                        ).dom().contains(v) || pq_model(p2.receive_queue).dom().contains(v)));
                        assert(!pq_model(p_mid.receive_queue).dom().contains(v));
                        assert(count_carrying(p_mid.send_queue@, v) == 0);
                        assert(count_carrying(sent@, v) == count_carrying(p2.send_queue@, v));
                        assert(local_count(p_mid, v) + count_carrying(sent@, v) == local_count(
                            p2,
                            v,
                        ));
                    } else {
                        assert(p_mid == p2);
                        assert(count_carrying(sent@, v) == 0) by {
                            assert(sent@ =~= Seq::<(usize, usize)>::empty());
                        }
                    }
                }
                assert(sent@.skip(0) =~= sent@);
                // Queue sanity for the new state.
                assert forall|ii: int, v: usize|
                    0 <= ii < np && #[trigger] pq_model(procs_mid[ii].queue).dom().contains(v)
                        implies ready_sane(g_now, solved, procs_mid, ii, v) by {
                    assert forall|x: int| 0 <= x < np implies local_count(
                        #[trigger] procs_at_head[x],
                        v,
                    ) >= 0 by {
                        lemma_local_count_nonneg(procs_at_head[x], v);
                    }
                    if task_opt is Some {
                        let t0 = task_opt->Some_0;
                        lemma_count_unsolved_insert(g_now.deps@, solved_pre, t0, v);
                        lemma_count_from_to_nonneg(g_now.deps@, t0, v);
                        lemma_count_unsolved_nonneg(g_now.deps@, solved, v);
                    }
                    if ii != i as int {
                        assert(procs_mid[ii] == procs_at_head[ii]);
                        assert(queued_entry_ok(graph_at_head, solved_pre, v, ii));
                        assert(!solved.contains(v)) by {
                            if task_opt is Some && v == task_opt->Some_0 {
                                assert(local_count(procs_at_head[i as int], v) >= 1);
                                assert(local_count(procs_at_head[ii], v) >= 1);
                                lemma_total_count_two(procs_at_head, i as int, ii, v);
                                assert(false);
                            }
                        }
                    } else {
                        // the checked-out processor itself
                        let in_ready2 = pq_model(p2.queue).dom().contains(v);
                        let in_recv = pq_model(p_head.receive_queue).dom().contains(v);
                        assert(p2.receive_queue == p_head.receive_queue);
                        if flush {
                            assert(in_ready2 || in_recv);
                        } else {
                            assert(p_mid == p2);
                            assert(in_ready2);
                        }
                        let nl_v: bool = task_opt is Some && newly_ready_local(
                            g_pre,
                            g_now,
                            task_opt->Some_0,
                            v,
                            p_head.num,
                        );
                        if in_ready2 {
                            if task_opt is Some {
                                let t0 = task_opt->Some_0;
                                assert(pq_model(p1.queue) == pq_model(p_head.queue).remove(t0));
                                if nl_v {
                                    assert(g_pre.nodes@[v as int].data.processor_num == p_head.num);
                                    assert(g_now.nodes@[v as int].data.num_upwind == 0);
                                    assert(!solved_pre.contains(v)) by {
                                        assert(g_pre.nodes@[v as int].data.num_upwind > 0);
                                    }
                                    assert(v != t0);
                                    assert(pq_model(p2.queue)[v]
                                        == g_pre.nodes@[v as int].data.spec_priority());
                                } else {
                                    assert(pq_model(p_head.queue).dom().contains(v));
                                    assert(v != t0);
                                    assert(queued_entry_ok(graph_at_head, solved_pre, v, i as int));
                                    assert(pq_model(p2.queue)[v] == pq_model(p_head.queue)[v]);
                                }
                            } else {
                                assert(pq_model(p1.queue) == pq_model(p_head.queue));
                                assert(pq_model(p_head.queue).dom().contains(v));
                                assert(queued_entry_ok(graph_at_head, solved_pre, v, i as int));
                            }
                        }
                        if !in_ready2 && in_recv {
                            assert(queued_entry_ok(graph_at_head, solved_pre, v, i as int));
                        }
                        assert(!solved.contains(v)) by {
                            if task_opt is Some && v == task_opt->Some_0 {
                                let t0 = task_opt->Some_0;
                                assert(!nl_v);
                                assert(!pq_model(p_head.queue).remove(t0).dom().contains(v));
                                assert(!in_ready2);
                                if in_recv {
                                    assert(local_count(p_head, v) >= 2) by {
                                        lemma_count_carrying_nonneg(p_head.send_queue@, v);
                                    }
                                    lemma_total_count_bound(procs_at_head, i as int, v);
                                    assert(false);
                                }
                                assert(false);
                            }
                        }
                        // the stored priority
                        if flush {
                            assert(pq_model(p_mid.queue) == pq_model(p2.queue).union_prefer_right(
                                pq_model(p2.receive_queue),
                            ));
                            if pq_model(p2.receive_queue).dom().contains(v) {
                                assert(pq_model(p_mid.queue)[v] == pq_model(p2.receive_queue)[v]);
                                assert(pq_model(p_head.receive_queue)[v]
                                    == graph_at_head.nodes@[v as int].data.spec_priority());
                            } else {
                                assert(pq_model(p_mid.queue)[v] == pq_model(p2.queue)[v]);
                            }
                        }
                    }
                    assert(g_now.nodes@[v as int].data.spec_priority()
                        == graph_at_head.nodes@[v as int].data.spec_priority()) by {
                        assert(g_now.nodes@[v as int].data.cell
                            == graph_at_head.nodes@[v as int].data.cell);
                        assert(g_now.nodes@[v as int].data.direction
                            == graph_at_head.nodes@[v as int].data.direction);
                    }
                    assert(v < g_now.nodes@.len());
                    assert(g_now.nodes@[v as int].data.processor_num == ii);
                    assert(g_now.nodes@[v as int].data.num_upwind == 0);
                    assert(!solved.contains(v));
                    assert(queued_entry_ok(g_now, solved, v, ii));
                    assert(pq_model(procs_mid[ii].queue)[v]
                        == g_now.nodes@[v as int].data.spec_priority());
                }
                assert(g_now == self.graph);
                assert forall|ii: int, v: usize|
                    0 <= ii < np && #[trigger] pq_model(procs_mid[ii].receive_queue).dom().contains(
                        v,
                    ) implies (queued_entry_ok(self.graph, solved, v, ii) && pq_model(
                    procs_mid[ii].receive_queue,
                )[v] == self.graph.nodes@[v as int].data.spec_priority()) by {
                    assert(ii != i as int ==> procs_mid[ii] == procs_at_head[ii]);
                    if ii == i as int {
                        if flush {
                            assert(pq_model(p_mid.receive_queue) == pq_empty());
                            assert(false);
                        } else {
                            assert(p_mid.receive_queue == p_head.receive_queue);
                        }
                    }
                    assert(queued_entry_ok(graph_at_head, solved_pre, v, ii));
                    assert(self.graph.nodes@[v as int].data.num_upwind == 0) by {
                        if task_opt is Some {
                            let t = task_opt->Some_0;
                            lemma_count_unsolved_insert(self.graph.deps@, solved_pre, t, v);
                            lemma_count_from_to_nonneg(self.graph.deps@, t, v);
                            lemma_count_unsolved_nonneg(self.graph.deps@, solved, v);
                        }
                    }
                    assert(!solved.contains(v)) by {
                        if task_opt is Some && v == task_opt->Some_0 {
                            assert forall|x: int| 0 <= x < np implies local_count(
                                #[trigger] procs_at_head[x],
                                v,
                            ) >= 0 by {
                                lemma_local_count_nonneg(procs_at_head[x], v);
                            }
                            assert(pq_model(procs_at_head[ii].receive_queue).dom().contains(v));
                            if ii == i as int {
                                assert(local_count(procs_at_head[i as int], v) >= 2) by {
                                    lemma_count_carrying_nonneg(p_head.send_queue@, v);
                                }
                                lemma_total_count_bound(procs_at_head, i as int, v);
                                assert(false);
                            } else {
                                assert(local_count(procs_at_head[i as int], v) >= 1);
                                assert(local_count(procs_at_head[ii], v) >= 1);
                                lemma_total_count_two(procs_at_head, i as int, ii, v);
                                assert(false);
                            }
                        }
                    }
                }
                assert forall|k: int| 0 <= k < sent@.len() implies send_entry_ok(
                    self.graph,
                    solved,
                    #[trigger] sent@[k],
                    i as int,
                    np as int,
                ) by {
                    let entry = sent@[k];
                    if flush {
                        assert(sent@ == p2.send_queue@);
                        if k < p_head.send_queue@.len() {
                            assert(p2.send_queue@.take(p_head.send_queue@.len() as int)
                                == p_head.send_queue@) by {
                                if task_opt is None {
                                    assert(p2.send_queue@.take(p_head.send_queue@.len() as int)
                                        =~= p_head.send_queue@);
                                }
                            }
                            assert(entry == p_head.send_queue@[k]);
                            assert(send_entry_ok(graph_at_head, solved_pre, entry, i as int, np as int));
                            assert(self.graph.nodes@[entry.1 as int].data.num_upwind == 0) by {
                                if task_opt is Some {
                                    let t = task_opt->Some_0;
                                    lemma_count_unsolved_insert(
                                        self.graph.deps@,
                                        solved_pre,
                                        t,
                                        entry.1,
                                    );
                                    lemma_count_from_to_nonneg(self.graph.deps@, t, entry.1);
                                    lemma_count_unsolved_nonneg(self.graph.deps@, solved, entry.1);
                                }
                            }
                            assert(!solved.contains(entry.1)) by {
                                if task_opt is Some && entry.1 == task_opt->Some_0 {
                                    let t = task_opt->Some_0;
                                    lemma_count_carrying_elem(p_head.send_queue@, k, t);
                                    lemma_local_count_nonneg(procs_at_head[i as int], t);
                                    assert(local_count(procs_at_head[i as int], t) >= 2);
                                    assert forall|x: int| 0 <= x < np implies local_count(
                                        #[trigger] procs_at_head[x],
                                        t,
                                    ) >= 0 by {
                                        lemma_local_count_nonneg(procs_at_head[x], t);
                                    }
                                    lemma_total_count_bound(procs_at_head, i as int, t);
                                    assert(false);
                                }
                            }
                        } else {
                            // a task this solve made ready for another processor
                            let t = task_opt->Some_0;
                            assert(newly_ready_remote(g_pre, g_now, t, entry.1, p_head.num));
                            assert(!solved_pre.contains(entry.1)) by {
                                assert(g_pre.nodes@[entry.1 as int].data.num_upwind > 0);
                            }
                            assert(entry.1 != t);
                        }
                    }
                }
                assert forall|ii: int, k: int|
                    0 <= ii < np && 0 <= k < procs_mid[ii].send_queue@.len() implies send_entry_ok(
                    g_now,
                    solved,
                    #[trigger] procs_mid[ii].send_queue@[k],
                    ii,
                    np as int,
                ) by {
                    let entry = procs_mid[ii].send_queue@[k];
                    if task_opt is Some {
                        let t0 = task_opt->Some_0;
                        lemma_count_unsolved_insert(g_now.deps@, solved_pre, t0, entry.1);
                        lemma_count_from_to_nonneg(g_now.deps@, t0, entry.1);
                        lemma_count_unsolved_nonneg(g_now.deps@, solved, entry.1);
                    }
                    assert forall|x: int| 0 <= x < np implies local_count(
                        #[trigger] procs_at_head[x],
                        entry.1,
                    ) >= 0 by {
                        lemma_local_count_nonneg(procs_at_head[x], entry.1);
                    }
                    if ii != i as int {
                        assert(procs_mid[ii] == procs_at_head[ii]);
                        assert(send_entry_ok(graph_at_head, solved_pre, entry, ii, np as int));
                        assert(!solved.contains(entry.1)) by {
                            if task_opt is Some && entry.1 == task_opt->Some_0 {
                                let t0 = task_opt->Some_0;
                                lemma_count_carrying_elem(procs_at_head[ii].send_queue@, k, t0);
                                lemma_count_carrying_nonneg(p_head.send_queue@, t0);
                                assert(pq_model(p_head.queue).dom().contains(t0));
                                assert(local_count(procs_at_head[i as int], t0) >= 1);
                                assert(local_count(procs_at_head[ii], t0) >= 1);
                                lemma_total_count_two(procs_at_head, i as int, ii, t0);
                                assert(false);
                            }
                        }
                    } else {
                        assert(!flush);
                        assert(p_mid == p2);
                        if k < p_head.send_queue@.len() {
                            assert(entry == p_head.send_queue@[k]) by {
                                assert(p2.send_queue@.take(p_head.send_queue@.len() as int)
                                    == p_head.send_queue@);
                            }
                            assert(send_entry_ok(graph_at_head, solved_pre, entry, ii, np as int));
                            assert(!solved.contains(entry.1)) by {
                                if task_opt is Some && entry.1 == task_opt->Some_0 {
                                    let t0 = task_opt->Some_0;
                                    lemma_count_carrying_elem(p_head.send_queue@, k, t0);
                                    assert(pq_model(p_head.queue).dom().contains(t0));
                                    assert(local_count(procs_at_head[i as int], t0) >= 2);
                                    lemma_total_count_bound(procs_at_head, i as int, t0);
                                    assert(false);
                                }
                            }
                        } else {
                            let t0 = task_opt->Some_0;
                            assert(newly_ready_remote(g_pre, g_now, t0, entry.1, p_head.num));
                            assert(!solved_pre.contains(entry.1)) by {
                                assert(g_pre.nodes@[entry.1 as int].data.num_upwind > 0);
                            }
                            assert(entry.1 != t0);
                        }
                    }
                }
                assert forall|x: int| 0 <= x < np implies ((#[trigger] procs_mid[x]).wf()
                    && procs_mid[x].num == x && procs_mid[x].param_file == params0) by {
                    if x != i as int {
                        assert(procs_mid[x] == procs_at_head[x]);
                    }
                }
                assert(inv_procs(procs_mid, g_now, solved, params0));
                // The pool without this processor.
                assert(inv_pool_except(
                    pq_model(self.processors.queue),
                    procs_mid,
                    i as int,
                ));
                assert(p_mid.asleep == asleep_now);
                assert(inv_asleep(procs_mid)) by {
                    assert forall|x: int| 0 <= x < np && (#[trigger] procs_mid[x]).asleep implies (
                    pq_model(procs_mid[x].queue) == pq_empty() && pq_model(
                        procs_mid[x].receive_queue,
                    ) == pq_empty() && procs_mid[x].send_queue@.len() == 0) by {
                        if x != i as int {
                            assert(procs_mid[x] == procs_at_head[x]);
                        } else {
                            assert(asleep_now);
                            assert(pq_model(p_head.queue) == pq_empty());
                            assert(pq_model(p2.queue) == pq_empty());
                            assert(pq_model(p2.receive_queue).dom().len() == 0);
                            pq_model(p2.receive_queue).dom().lemma_len0_is_empty();
                            assert(pq_model(p2.receive_queue).dom() =~= Set::<usize>::empty());
                            assert(pq_model(p2.receive_queue) =~= pq_empty());
                            assert(pq_model(p_mid.queue) =~= pq_empty());
                        }
                    }
                }
                // One processor never communicates.
                if np == 1 {
                    assert(p2.send_queue@.len() == 0) by {
                        if p2.send_queue@.len() > 0 {
                            let k = p2.send_queue@.len() - 1;
                            if k < p_head.send_queue@.len() {
                                assert(p_head.send_queue@[k] == p2.send_queue@[k]) by {
                                    assert(p2.send_queue@.take(p_head.send_queue@.len() as int)
                                        =~= p_head.send_queue@);
                                }
                                assert(send_entry_ok(
                                    graph_at_head,
                                    solved_pre,
                                    p2.send_queue@[k],
                                    0,
                                    1,
                                ));
                                assert(false);
                            } else {
                                assert((p2.send_queue@[k].0 as int) < 1 && p2.send_queue@[k].0
                                    != p_head.num);
                                assert(false);
                            }
                        }
                    }
                    assert(sent@.len() == 0);
                    assert(pq_model(p_head.receive_queue) == pq_empty());
                    assert(num_received == 0) by {
                        if flush {
                            assert(pq_model(p2.receive_queue).dom() =~= Set::<usize>::empty());
                        }
                    }
                    assert(p_mid.time_spent_communicating == 0);
                    assert(p_mid.time_spent_waiting == 0);
                    assert(p_mid.time == clip64(p_mid.num_solved * params0.solve_time_offset)) by {
                        if task_opt is Some {
                            assert(p2.time == clip64(p_head.time
                                + params0.solve_time_offset));
                            assert((p_head.num_solved + 1) * params0.solve_time_offset
                                == p_head.num_solved * params0.solve_time_offset
                                + params0.solve_time_offset) by (nonlinear_arith);
                            vstd::arithmetic::mul::lemma_mul_nonnegative(
                                p_head.num_solved as int,
                                params0.solve_time_offset as int,
                            );
                        }
                    }
                }
            }
            let mut j: usize = 0;
            while j < sent.len()
                invariant
                    j <= sent@.len(),
                    self.param_file == params0,
                    self.processors.processors@.len() == np,
                    np >= 1,
                    (i as int) < np,
                    n == g0.nodes@.len(),
                    n == self.graph.nodes@.len(),
                    dep_graph_wf(g0),
                    graph_tasks_ok(g0, np as int),
                    graph_frame(self.graph, g0),
                    inv_upwind(self.graph, solved),
                    inv_solved(self.graph, solved),
                    inv_procs(self.processors.processors@, self.graph, solved, params0),
                    inv_pool_except(
                        pq_model(self.processors.queue),
                        self.processors.processors@,
                        i as int,
                    ),
                    self.processors.processors@[i as int].asleep == asleep_now,
                    forall|v: usize|
                        v < n ==> #[trigger] total_count(self.processors.processors@, v)
                            + count_carrying(sent@.skip(j as int), v) == (if !solved.contains(v)
                            && self.graph.nodes@[v as int].data.num_upwind == 0 {
                            1int
                        } else {
                            0int
                        }),
                    forall|k: int|
                        0 <= k < sent@.len() ==> send_entry_ok(
                            self.graph,
                            solved,
                            #[trigger] sent@[k],
                            i as int,
                            np as int,
                        ),
                    sum_solved(self.processors.processors@) == solved.len(),
                    sum_weight(self.processors.processors@) == sum_weight(procs_mid) + j,
                    sent@.len() == 0 ==> pq_model(self.processors.queue) == pool_at_head.remove(
                        i,
                    ),
                    num_to_solve as int == n - solved.len(),
                    inv_single(self.processors.processors@, params0),
                    inv_asleep(self.processors.processors@),
                    self.solve_order@.len() == solved.len(),
                    forall|v: usize|
                        #[trigger] solved.contains(v) <==> trace_contains(self.solve_order@, v),
                    forall|p1: int, p2: int|
                        0 <= p1 < p2 < self.solve_order@.len() ==> self.solve_order@[p1]
                            != self.solve_order@[p2],
                    forall|p: int|
                        0 <= p < self.solve_order@.len() ==> (
                        #[trigger] self.solve_order@[p] as int) < n,
                    sources_precede(self.solve_order@, self.graph.deps@),
                decreases sent@.len() - j,
            {
                let entry = sent[j];
                let dest = entry.0;
                let t = entry.1;
                proof {
                    assert(send_entry_ok(self.graph, solved, sent@[j as int], i as int, np as int));
                    lemma_count_carrying_skip(sent@, j as int, t);
                    lemma_count_carrying_nonneg(sent@.skip(j + 1), t);
                    assert forall|x: int|
                        0 <= x < np implies local_count(
                        #[trigger] self.processors.processors@[x],
                        t,
                    ) >= 0 by {
                        lemma_local_count_nonneg(self.processors.processors@[x], t);
                    }
                    lemma_total_count_bound(self.processors.processors@, dest as int, t);
                    assert(total_count(self.processors.processors@, t) == 0);
                    assert(local_count(self.processors.processors@[dest as int], t) == 0);
                }
                let priority = {
                    let node = self.graph.get(t).unwrap();
                    proof {
                        assert(g0.nodes@[t as int].data.priority_in_bounds());
                    }
                    node.data.get_priority()
                };
                let ghost procs_before_push = self.processors.processors@;
                {
                    let dp = self.processors.proc_mut(dest);
                    dp.add_task_to_receive_queue(t, priority);
                }
                proof {
                    broadcast use vstd::set_lib::group_set_properties;

                    let procs_after_push = self.processors.processors@;
                    let dp0 = procs_before_push[dest as int];
                    let dp1 = procs_after_push[dest as int];
                    lemma_count_carrying_nonneg(dp0.send_queue@, t);
                    assert(!pq_model(dp0.receive_queue).dom().contains(t));
                    assert(pq_model(dp1.receive_queue).dom() =~= pq_model(
                        dp0.receive_queue,
                    ).dom().insert(t));
                    assert(pq_model(dp1.receive_queue).dom().len() == pq_model(
                        dp0.receive_queue,
                    ).dom().len() + 1);
                    assert(comm_weight(dp1) == comm_weight(dp0) + 1);
                    lemma_sum_solved_update(procs_before_push, dest as int, dp1);
                    lemma_sum_weight_update(procs_before_push, dest as int, dp1);
                    assert forall|v: usize| v < n implies #[trigger] total_count(
                        procs_after_push,
                        v,
                    ) == total_count(procs_before_push, v) + b2i(v == t) by {
                        lemma_total_count_update(procs_before_push, dest as int, dp1, v);
                        if v == t {
                            assert(local_count(dp1, v) == local_count(dp0, v) + 1);
                        } else {
                            assert(local_count(dp1, v) == local_count(dp0, v));
                        }
                    }
                }
                let ghost procs_before_wake = self.processors.processors@;
                self.processors.wake_up_at(dest, current_time);
                proof {
                    let procs_after_wake = self.processors.processors@;
                    let dp2 = procs_after_wake[dest as int];
                    assert(dp2.queue == procs_before_wake[dest as int].queue);
                    assert(dp2.receive_queue == procs_before_wake[dest as int].receive_queue);
                    assert(dp2.send_queue == procs_before_wake[dest as int].send_queue);
                    assert(dp2.num_solved == procs_before_wake[dest as int].num_solved);
                    lemma_sum_solved_update(procs_before_wake, dest as int, dp2);
                    lemma_sum_weight_update(procs_before_wake, dest as int, dp2);
                    assert forall|v: usize| v < n implies #[trigger] total_count(
                        procs_after_wake,
                        v,
                    ) == total_count(procs_before_wake, v) by {
                        lemma_total_count_update(procs_before_wake, dest as int, dp2, v);
                    }
                    assert forall|v: usize| v < n implies #[trigger] total_count(
                        procs_after_wake,
                        v,
                    ) + count_carrying(sent@.skip(j + 1), v) == (if !solved.contains(v)
                        && self.graph.nodes@[v as int].data.num_upwind == 0 {
                        1int
                    } else {
                        0int
                    }) by {
                        lemma_count_carrying_skip(sent@, j as int, v);
                    }
                    assert forall|x: int|
                        0 <= x < np && (#[trigger] procs_after_wake[x]).asleep implies (pq_model(
                        procs_after_wake[x].queue,
                    ) == pq_empty() && pq_model(procs_after_wake[x].receive_queue) == pq_empty()
                        && procs_after_wake[x].send_queue@.len() == 0) by {
                        if x != dest as int {
                            assert(procs_after_wake[x] == procs_before_push[x]);
                        } else {
                            assert(!procs_after_wake[x].asleep);
                        }
                    }
                }
                j = j + 1;
            }
            if num_to_solve == 0 {
                proof {
                    assert(sent@.skip(sent@.len() as int) =~= Seq::<(usize, usize)>::empty());
                }
                break ;
            }
            if !asleep_now {
                self.processors.reinsert_with_new_priority(i);
            }
            proof {
                broadcast use vstd::set_lib::group_set_properties;

                assert(sent@.skip(sent@.len() as int) =~= Seq::<(usize, usize)>::empty());
                assert forall|v: usize| v < n implies #[trigger] total_count(
                    self.processors.processors@,
                    v,
                ) == (if !solved.contains(v) && self.graph.nodes@[v as int].data.num_upwind == 0 {
                    1int
                } else {
                    0int
                }) by {}
                lemma_sum_weight_nonneg(self.processors.processors@);
                if task_opt is None {
                    // Nothing was solved: the communication debt strictly
                    // fell, or this processor left the pool for good.
                    assert(solved =~= solved_pre);
                    assert(flush);
                    assert(comm_weight(p_mid) == 0) by {
                        assert(pq_model(p_mid.receive_queue).dom() =~= Set::<usize>::empty());
                    }
                    assert(comm_weight(procs_at_head[i as int]) == 2 * (
                    p_head.send_queue@.len() as int) + (pq_model(
                        p_head.receive_queue,
                    ).dom().len() as int));
                    assert(sent@.len() == p_head.send_queue@.len());
                    assert(num_received as int == pq_model(p_head.receive_queue).dom().len() as int);
                    assert(sum_weight(self.processors.processors@) == sum_weight(procs_at_head) - 2
                        * (p_head.send_queue@.len() as int) - (pq_model(
                        p_head.receive_queue,
                    ).dom().len() as int) + (sent@.len() as int));
                    if num_received == 0 && p_head.send_queue@.len() == 0 {
                        assert(sum_weight(self.processors.processors@) == sum_weight(
                            procs_at_head,
                        ));
                        assert(asleep_now);
                        assert(sent@.len() == 0);
                        assert(pq_model(self.processors.queue) == pool_at_head.remove(i));
                        assert(pool_at_head.dom().contains(i));
                        assert(pq_model(self.processors.queue).dom() =~= pool_at_head.dom().remove(
                            i,
                        ));
                        assert(pq_model(self.processors.queue).dom().len() < pool_at_head.dom().len());
                    } else {
                        assert(pq_model(p_head.receive_queue).dom().len() + p_head.send_queue@.len()
                            > 0);
                        assert(sum_weight(self.processors.processors@) < sum_weight(
                            procs_at_head,
                        ));
                    }
                }
            }
        }
        proof {
            assert(solved.len() == n);
            let procs = self.processors.processors@;
            assert forall|x: int| 0 <= x < np implies ((#[trigger] procs[x]).time <= max_time(
                procs,
            ) && procs[x].time_spent_communicating <= max_time(procs)
                && procs[x].time_spent_waiting <= max_time(procs)) by {
                crate::run_data::lemma_max_time_bound(procs, x);
            }
            if np == 1 {
                assert(procs.drop_first() =~= Seq::<Processor>::empty());
                assert(sum_comm(procs.drop_first()) == 0);
                assert(sum_wait(procs.drop_first()) == 0);
                assert(sum_solved(procs.drop_first()) == 0);
                assert(max_time(procs.drop_first()) == 0);
                assert(sum_comm(procs) == procs[0].time_spent_communicating);
                assert(sum_wait(procs) == procs[0].time_spent_waiting);
                assert(sum_solved(procs) == procs[0].num_solved);
                assert(max_time(procs) == procs[0].time);
                vstd::arithmetic::div_mod::lemma_div_of0(1);
            }
        }
        let rd = RunData::new(&self.processors.processors);
        Ok(rd)
    }
}


/// Two different processors each holding `v` put the total at two or more.
pub proof fn lemma_total_count_two(procs: Seq<Processor>, a: int, b: int, v: usize)
    requires
        0 <= a < procs.len(),
        0 <= b < procs.len(),
        a != b,
        forall|j: int| 0 <= j < procs.len() ==> local_count(#[trigger] procs[j], v) >= 0,
        local_count(procs[a], v) >= 1,
        local_count(procs[b], v) >= 1,
    ensures
        total_count(procs, v) >= 2,
    decreases procs.len(),
{
    if a == 0 {
        lemma_total_count_bound(procs.drop_first(), b - 1, v);
    } else if b == 0 {
        lemma_total_count_bound(procs.drop_first(), a - 1, v);
    } else {
        lemma_total_count_two(procs.drop_first(), a - 1, b - 1, v);
    }
}

/// An entry carrying `v` makes `count_carrying` positive.
pub proof fn lemma_count_carrying_elem(entries: Seq<(usize, usize)>, k: int, v: usize)
    requires
        0 <= k < entries.len(),
        entries[k].1 == v,
    ensures
        count_carrying(entries, v) >= 1,
    decreases entries.len(),
{
    lemma_count_carrying_nonneg(entries.drop_first(), v);
    if k > 0 {
        assert(entries.drop_first()[k - 1] == entries[k]);
        lemma_count_carrying_elem(entries.drop_first(), k - 1, v);
    }
}


/// Doubling the per-solve cost exactly doubles a single-processor wall
/// time. A run on one processor ends at `clip64(tasks * offset)` ticks (see
/// [`run_ok_post`]); as long as the doubled product still fits in the clock,
/// doubling `offset` doubles that wall time.
pub proof fn lemma_single_processor_doubling(tasks: int, offset: int)
    requires
        0 <= tasks,
        0 <= offset,
        2 * tasks * offset <= u64::MAX,
    ensures
        clip64(tasks * (2 * offset)) == 2 * clip64(tasks * offset),
{
    assert(tasks * (2 * offset) == 2 * (tasks * offset)) by (nonlinear_arith);
    assert(2 * tasks * offset == 2 * (tasks * offset)) by (nonlinear_arith);
    assert(tasks * offset >= 0) by (nonlinear_arith)
        requires
            tasks >= 0,
            offset >= 0,
    ;
}

/// A pool with no solves yet sums to zero.
pub proof fn lemma_sum_solved_zero(procs: Seq<Processor>)
    requires
        forall|j: int| 0 <= j < procs.len() ==> (#[trigger] procs[j]).num_solved == 0,
    ensures
        sum_solved(procs) == 0,
    decreases procs.len(),
{
    if procs.len() > 0 {
        lemma_sum_solved_zero(procs.drop_first());
    }
}

} // verus!
