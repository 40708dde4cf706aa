//! The processor pool: every simulated processor, plus the global priority
//! queue that always yields the processor with the smallest clock.

use vstd::pervasive::VecAdditionalExecFns;
use vstd::prelude::*;

use crate::graph::Node;
use crate::grid::dep_graph_wf;
use crate::grid::Dependency;
use crate::grid::DependencyGraph;
use crate::param_file::ParamFile;
use crate::pqueue::pq_empty;
use crate::pqueue::pq_model;
use crate::pqueue::pq_new;
use crate::pqueue::pq_pop;
use crate::pqueue::pq_push;
use crate::pqueue::IntQueue;
use crate::processor::Processor;
use crate::task::Task;
use crate::vector_3d::Vector3D;

verus! {

/// Every task of the DAG names a processor the pool has, and its priority
/// can be computed exactly.
pub open spec fn graph_tasks_ok(g: DependencyGraph, num_processors: int) -> bool {
    forall|v: int|
        0 <= v < g.nodes@.len() ==> ((#[trigger] g.nodes@[v]).data.processor_num < num_processors
            && g.nodes@[v].data.priority_in_bounds())
}


/// How many tasks of the store processor `p` owns.
pub open spec fn owned_count(nodes: Seq<Node<Task, Dependency>>, p: int) -> int
    decreases nodes.len(),
{
    if nodes.len() == 0 {
        0
    } else {
        owned_count(nodes.drop_last(), p) + crate::counting::b2i(
            nodes.last().data.processor_num == p,
        )
    }
}

/// The sum of the x coordinates of the cell centers processor `p` owns.
pub open spec fn center_sum_x(nodes: Seq<Node<Task, Dependency>>, p: int) -> int
    decreases nodes.len(),
{
    if nodes.len() == 0 {
        0
    } else {
        center_sum_x(nodes.drop_last(), p) + (if nodes.last().data.processor_num == p {
            nodes.last().data.cell.center.x as int
        } else {
            0
        })
    }
}

/// The sum of the y coordinates of the cell centers processor `p` owns.
pub open spec fn center_sum_y(nodes: Seq<Node<Task, Dependency>>, p: int) -> int
    decreases nodes.len(),
{
    if nodes.len() == 0 {
        0
    } else {
        center_sum_y(nodes.drop_last(), p) + (if nodes.last().data.processor_num == p {
            nodes.last().data.cell.center.y as int
        } else {
            0
        })
    }
}

/// The sum of the z coordinates of the cell centers processor `p` owns.
pub open spec fn center_sum_z(nodes: Seq<Node<Task, Dependency>>, p: int) -> int
    decreases nodes.len(),
{
    if nodes.len() == 0 {
        0
    } else {
        center_sum_z(nodes.drop_last(), p) + (if nodes.last().data.processor_num == p {
            nodes.last().data.cell.center.z as int
        } else {
            0
        })
    }
}

/// Division rounding toward zero, as integer division of magnitudes.
pub open spec fn div_toward_zero(s: int, c: int) -> int {
    if s >= 0 {
        s / c
    } else {
        -((-s) / c)
    }
}

/// The domain center of processor `p`: the componentwise mean of the cell
/// centers it owns, rounded toward zero, or the origin when it owns none.
pub open spec fn spec_domain_center(nodes: Seq<Node<Task, Dependency>>, p: int) -> Vector3D {
    let c = owned_count(nodes, p);
    if c == 0 {
        Vector3D { x: 0, y: 0, z: 0 }
    } else {
        Vector3D {
            x: (div_toward_zero(center_sum_x(nodes, p), c)) as i64,
            y: (div_toward_zero(center_sum_y(nodes, p), c)) as i64,
            z: (div_toward_zero(center_sum_z(nodes, p), c)) as i64,
        }
    }
}

/// The pool: processors by number, and a queue of the awake ones keyed by
/// `u64::MAX - time`, so that the earliest clock pops first.
pub struct Processors {
    pub processors: Vec<Processor>,
    pub queue: IntQueue,
}

/// The priority under which a processor stands in the pool queue: reversed
/// time, so greater priority means earlier clock.
pub open spec fn spec_pool_priority(time: u64) -> u64 {
    (u64::MAX - time) as u64
}

/// How a processor changes when woken at a sender's time `time`: a sleeping
/// one wakes, jumping forward and booking the gap as waiting when `time` is
/// ahead of its clock; an awake one is untouched.
pub open spec fn wake_relation(p0: Processor, p1: Processor, time: u64) -> bool {
    &&& (p0.asleep && time > p0.time ==> p1 == (Processor {
        asleep: false,
        time: time,
        time_spent_waiting: (crate::param_file::clip64(
            p0.time_spent_waiting + (time - p0.time),
        )) as u64,
        ..p0
    }))
    &&& (p0.asleep && time <= p0.time ==> p1 == (Processor { asleep: false, ..p0 }))
    &&& (!p0.asleep ==> p1 == p0)
    &&& p1.time >= p0.time
}

/// Pushes one ready task into the queue of the processor that owns it.
fn seed_ready(procs: &mut Vec<Processor>, owner: usize, task: usize, priority: u64)
    requires
        owner < old(procs)@.len(),
        old(procs)@[owner as int].wf(),
    ensures
        final(procs)@.len() == old(procs)@.len(),
        final(procs)@[owner as int].wf(),
        (final(procs)@[owner as int] == (Processor {
            queue: final(procs)@[owner as int].queue,
            ..old(procs)@[owner as int]
        })),
        pq_model(final(procs)@[owner as int].queue) == pq_model(
            old(procs)@[owner as int].queue,
        ).insert(task, priority),
        forall|j: int|
            0 <= j < old(procs)@.len() && j != owner ==> final(procs)@[j] == old(procs)@[j],
        final(procs)@ == old(procs)@.update(owner as int, final(procs)@[owner as int]),
    {
    let p = &mut procs[owner];
    p.add_task_to_queue(task, priority);
    proof {
        assert(final(procs)@ =~= old(procs)@.update(owner as int, final(procs)@[owner as int]));
    }
}

impl Processors {
    /// How many processors the pool holds.
    pub fn len(&self) -> (r: usize)
        ensures
            r == self.processors@.len(),
    {
        self.processors.len()
    }

    /// A shared view of one processor.
    pub fn get(&self, i: usize) -> (r: &Processor)
        requires
            i < self.processors@.len(),
        ensures
            *r == self.processors@[i as int],
    {
        &self.processors[i]
    }

    /// Mutable access to one processor; the pool queue is untouched.
    pub fn proc_mut(&mut self, i: usize) -> (r: &mut Processor)
        requires
            i < old(self).processors@.len(),
        ensures
            *r == old(self).processors@[i as int],
            final(self).processors@ == old(self).processors@.update(i as int, *final(r)),
            final(self).queue == old(self).queue,
    {
        &mut self.processors[i]
    }

    /// The arithmetic mean of the cell centers owned by each processor,
    /// computed over the task graph; a processor that owns no task keeps the
    /// origin.
    pub fn get_centers(graph: &DependencyGraph, num_processors: usize) -> (r: Vec<Vector3D>)
        requires
            graph_tasks_ok(*graph, num_processors as int),
            forall|v: int|
                0 <= v < graph.nodes@.len() ==> (#[trigger] graph.nodes@[v]).data.cell.center.in_bounds(),
        ensures
            r@.len() == num_processors,
            forall|p: int|
                0 <= p < num_processors ==> #[trigger] r@[p] == spec_domain_center(
                    graph.nodes@,
                    p,
                ),
    {
        let mut sums_x: Vec<i128> = Vec::new();
        let mut sums_y: Vec<i128> = Vec::new();
        let mut sums_z: Vec<i128> = Vec::new();
        let mut counts: Vec<u64> = Vec::new();
        let mut p: usize = 0;
        while p < num_processors
            invariant
                p <= num_processors,
                sums_x@.len() == p,
                sums_y@.len() == p,
                sums_z@.len() == p,
                counts@.len() == p,
                forall|j: int| 0 <= j < p ==> #[trigger] sums_x@[j] == 0,
                forall|j: int| 0 <= j < p ==> #[trigger] sums_y@[j] == 0,
                forall|j: int| 0 <= j < p ==> #[trigger] sums_z@[j] == 0,
                forall|j: int| 0 <= j < p ==> #[trigger] counts@[j] == 0,
            decreases num_processors - p,
        {
            sums_x.push(0);
            sums_y.push(0);
            sums_z.push(0);
            counts.push(0);
            p = p + 1;
        }
        let n = graph.len();
        proof {
            assert(graph.nodes@.take(0) =~= Seq::<Node<Task, Dependency>>::empty());
        }
        let mut v: usize = 0;
        while v < n
            invariant
                v <= n,
                n == graph.nodes@.len(),
                graph_tasks_ok(*graph, num_processors as int),
                forall|w: int|
                    0 <= w < graph.nodes@.len() ==> (
                    #[trigger] graph.nodes@[w]).data.cell.center.in_bounds(),
                sums_x@.len() == num_processors,
                sums_y@.len() == num_processors,
                sums_z@.len() == num_processors,
                counts@.len() == num_processors,
                forall|j: int| 0 <= j < num_processors ==> #[trigger] counts@[j] <= v,
                forall|j: int|
                    0 <= j < num_processors ==> #[trigger] counts@[j] as int == owned_count(
                        graph.nodes@.take(v as int),
                        j,
                    ),
                forall|j: int|
                    0 <= j < num_processors ==> #[trigger] sums_x@[j] as int == center_sum_x(
                        graph.nodes@.take(v as int),
                        j,
                    ),
                forall|j: int|
                    0 <= j < num_processors ==> #[trigger] sums_y@[j] as int == center_sum_y(
                        graph.nodes@.take(v as int),
                        j,
                    ),
                forall|j: int|
                    0 <= j < num_processors ==> #[trigger] sums_z@[j] as int == center_sum_z(
                        graph.nodes@.take(v as int),
                        j,
                    ),
                forall|j: int|
                    0 <= j < num_processors ==> -(counts@[j] as int) * (
                    crate::vector_3d::COORD_BOUND as int) <= #[trigger] sums_x@[j] <= (
                    counts@[j] as int) * (crate::vector_3d::COORD_BOUND as int),
                forall|j: int|
                    0 <= j < num_processors ==> -(counts@[j] as int) * (
                    crate::vector_3d::COORD_BOUND as int) <= #[trigger] sums_y@[j] <= (
                    counts@[j] as int) * (crate::vector_3d::COORD_BOUND as int),
                forall|j: int|
                    0 <= j < num_processors ==> -(counts@[j] as int) * (
                    crate::vector_3d::COORD_BOUND as int) <= #[trigger] sums_z@[j] <= (
                    counts@[j] as int) * (crate::vector_3d::COORD_BOUND as int),
            decreases n - v,
        {
            let node = graph.get(v).unwrap();
            let t = node.data;
            let pn = t.processor_num;
            let sx = sums_x[pn];
            let sy = sums_y[pn];
            let sz = sums_z[pn];
            let c = counts[pn];
            proof {
                assert((c as int) * (crate::vector_3d::COORD_BOUND as int) + (
                crate::vector_3d::COORD_BOUND as int) == ((c + 1) as int) * (
                crate::vector_3d::COORD_BOUND as int)) by (nonlinear_arith)
                    requires
                        c < u64::MAX,
                ;
                assert(0 <= (c as int) * (crate::vector_3d::COORD_BOUND as int) <= (
                u64::MAX as int) * (crate::vector_3d::COORD_BOUND as int)) by (nonlinear_arith)
                    requires
                        0 <= c <= u64::MAX as int,
                ;
            }
            sums_x.set(pn, sx + t.cell.center.x as i128);
            sums_y.set(pn, sy + t.cell.center.y as i128);
            sums_z.set(pn, sz + t.cell.center.z as i128);
            counts.set(pn, c + 1);
            proof {
                let pre = graph.nodes@.take(v as int);
                let post = graph.nodes@.take(v + 1);
                assert(post.drop_last() =~= pre);
                assert(post.last() == graph.nodes@[v as int]);
                assert forall|j: int| 0 <= j < num_processors implies (#[trigger] counts@[j] as int
                    == owned_count(post, j) && sums_x@[j] as int == center_sum_x(post, j)
                    && sums_y@[j] as int == center_sum_y(post, j) && sums_z@[j] as int
                    == center_sum_z(post, j)) by {}
            }
            v = v + 1;
        }
        proof {
            assert(graph.nodes@.take(n as int) =~= graph.nodes@);
        }
        let mut centers: Vec<Vector3D> = Vec::new();
        let mut j: usize = 0;
        while j < num_processors
            invariant
                j <= num_processors,
                centers@.len() == j,
                sums_x@.len() == num_processors,
                sums_y@.len() == num_processors,
                sums_z@.len() == num_processors,
                counts@.len() == num_processors,
                forall|jj: int|
                    0 <= jj < num_processors ==> #[trigger] counts@[jj] as int == owned_count(
                        graph.nodes@,
                        jj,
                    ),
                forall|jj: int|
                    0 <= jj < num_processors ==> #[trigger] sums_x@[jj] as int == center_sum_x(
                        graph.nodes@,
                        jj,
                    ),
                forall|jj: int|
                    0 <= jj < num_processors ==> #[trigger] sums_y@[jj] as int == center_sum_y(
                        graph.nodes@,
                        jj,
                    ),
                forall|jj: int|
                    0 <= jj < num_processors ==> #[trigger] sums_z@[jj] as int == center_sum_z(
                        graph.nodes@,
                        jj,
                    ),
                forall|jj: int|
                    0 <= jj < num_processors ==> -(counts@[jj] as int) * (
                    crate::vector_3d::COORD_BOUND as int) <= #[trigger] sums_x@[jj] <= (
                    counts@[jj] as int) * (crate::vector_3d::COORD_BOUND as int),
                forall|jj: int|
                    0 <= jj < num_processors ==> -(counts@[jj] as int) * (
                    crate::vector_3d::COORD_BOUND as int) <= #[trigger] sums_y@[jj] <= (
                    counts@[jj] as int) * (crate::vector_3d::COORD_BOUND as int),
                forall|jj: int|
                    0 <= jj < num_processors ==> -(counts@[jj] as int) * (
                    crate::vector_3d::COORD_BOUND as int) <= #[trigger] sums_z@[jj] <= (
                    counts@[jj] as int) * (crate::vector_3d::COORD_BOUND as int),
                forall|jj: int|
                    0 <= jj < j ==> #[trigger] centers@[jj] == spec_domain_center(
                        graph.nodes@,
                        jj,
                    ),
            decreases num_processors - j,
        {
            let c = counts[j];
            if c == 0 {
                centers.push(Vector3D { x: 0, y: 0, z: 0 });
            } else {
                let x_val = div_trunc(sums_x[j], c);
                let y_val = div_trunc(sums_y[j], c);
                let z_val = div_trunc(sums_z[j], c);
                proof {
                    lemma_div_in_coord_range(center_sum_x(graph.nodes@, j as int), c as int);
                    lemma_div_in_coord_range(center_sum_y(graph.nodes@, j as int), c as int);
                    lemma_div_in_coord_range(center_sum_z(graph.nodes@, j as int), c as int);
                    assert(x_val == div_toward_zero(center_sum_x(graph.nodes@, j as int), c as int));
                    assert(y_val == div_toward_zero(center_sum_y(graph.nodes@, j as int), c as int));
                    assert(z_val == div_toward_zero(center_sum_z(graph.nodes@, j as int), c as int));
                }
                centers.push(Vector3D { x: x_val, y: y_val, z: z_val });
            }
            j = j + 1;
        }
        centers
    }

    /// Builds the pool over a task graph: one processor per number, each
    /// ready queue seeded with exactly the tasks it owns that start with no
    /// upwind work, and every processor queued at time zero.
    pub fn new(graph: &DependencyGraph, num_processors: usize, param_file: &ParamFile) -> (r:
        Processors)
        requires
            dep_graph_wf(*graph),
            graph_tasks_ok(*graph, num_processors as int),
            forall|v: int|
                0 <= v < graph.nodes@.len() ==> (#[trigger] graph.nodes@[v]).data.cell.center.in_bounds(),
        ensures
            r.processors@.len() == num_processors,
            forall|i: int|
                0 <= i < num_processors ==> (#[trigger] r.processors@[i]).domain_center
                    == spec_domain_center(graph.nodes@, i),
            forall|i: int|
                0 <= i < num_processors ==> {
                    let p = #[trigger] r.processors@[i];
                    p.wf() && p.num == i && p.param_file == *param_file && p.num_solved == 0
                        && p.time == 0 && p.asleep == false && p.time_spent_communicating == 0
                        && p.time_spent_waiting == 0 && p.send_queue@ == Seq::<(usize, usize)>::empty()
                        && pq_model(p.receive_queue) == pq_empty()
                },
            forall|i: int, v: usize|
                0 <= i < num_processors ==> (#[trigger] pq_model(
                    r.processors@[i].queue,
                ).dom().contains(v) <==> (v < graph.nodes@.len()
                    && graph.nodes@[v as int].data.processor_num == i
                    && graph.nodes@[v as int].data.num_upwind == 0)),
            forall|i: int, v: usize|
                0 <= i < num_processors && #[trigger] pq_model(
                    r.processors@[i].queue,
                ).dom().contains(v) ==> pq_model(r.processors@[i].queue)[v]
                    == graph.nodes@[v as int].data.spec_priority(),
            pq_model(r.queue).dom().finite(),
            forall|p: usize|
                pq_model(r.queue).dom().contains(p) <==> (p as int) < num_processors,
            forall|p: usize|
                pq_model(r.queue).dom().contains(p) ==> pq_model(r.queue)[p]
                    == spec_pool_priority(0),
    {
        let centers = Processors::get_centers(graph, num_processors);
        let mut processors: Vec<Processor> = Vec::new();
        let mut num: usize = 0;
        while num < num_processors
            invariant
                num <= num_processors,
                centers@.len() == num_processors,
                forall|i: int|
                    0 <= i < num_processors ==> #[trigger] centers@[i] == spec_domain_center(
                        graph.nodes@,
                        i,
                    ),
                processors@.len() == num,
                forall|i: int|
                    0 <= i < num ==> {
                        let p = #[trigger] processors@[i];
                        p.wf() && p.num == i && p.param_file == *param_file && p.num_solved == 0
                            && p.time == 0 && p.asleep == false && p.time_spent_communicating == 0
                            && p.time_spent_waiting == 0 && p.send_queue@ == Seq::<
                            (usize, usize),
                        >::empty() && pq_model(p.receive_queue) == pq_empty() && pq_model(p.queue)
                            == pq_empty() && p.domain_center == spec_domain_center(graph.nodes@, i)
                    },
            decreases num_processors - num,
        {
            let q = pq_new();
            processors.push(Processor::new(num, q, centers[num], param_file));
            num = num + 1;
        }
        let n = graph.len();
        let mut v: usize = 0;
        while v < n
            invariant
                v <= n,
                n == graph.nodes@.len(),
                dep_graph_wf(*graph),
                graph_tasks_ok(*graph, num_processors as int),
                processors@.len() == num_processors,
                forall|i: int|
                    0 <= i < num_processors ==> {
                        let p = #[trigger] processors@[i];
                        p.wf() && p.num == i && p.param_file == *param_file && p.num_solved == 0
                            && p.time == 0 && p.asleep == false && p.time_spent_communicating == 0
                            && p.time_spent_waiting == 0 && p.send_queue@ == Seq::<
                            (usize, usize),
                        >::empty() && pq_model(p.receive_queue) == pq_empty() && p.domain_center
                            == spec_domain_center(graph.nodes@, i)
                    },
                forall|i: int, w: usize|
                    0 <= i < num_processors ==> (#[trigger] pq_model(
                        processors@[i].queue,
                    ).dom().contains(w) <==> ((w as int) < v
                        && graph.nodes@[w as int].data.processor_num == i
                        && graph.nodes@[w as int].data.num_upwind == 0)),
                forall|i: int, w: usize|
                    0 <= i < num_processors && #[trigger] pq_model(
                        processors@[i].queue,
                    ).dom().contains(w) ==> pq_model(processors@[i].queue)[w]
                        == graph.nodes@[w as int].data.spec_priority(),
            decreases n - v,
        {
            let node = graph.get(v).unwrap();
            if node.data.num_upwind == 0 {
                let priority = node.data.get_priority();
                seed_ready(&mut processors, node.data.processor_num, v, priority);
            }
            v = v + 1;
        }
        let mut queue = pq_new();
        let mut i: usize = 0;
        while i < num_processors
            invariant
                i <= num_processors,
                pq_model(queue).dom().finite(),
                forall|p: usize| pq_model(queue).dom().contains(p) <==> (p as int) < i,
                forall|p: usize|
                    pq_model(queue).dom().contains(p) ==> pq_model(queue)[p] == spec_pool_priority(
                        0,
                    ),
            decreases num_processors - i,
        {
            pq_push(&mut queue, i, u64::MAX);
            i = i + 1;
        }
        Processors { processors, queue }
    }

    /// Removes and returns the number of an awake processor with the
    /// smallest clock, or nothing when every processor sleeps.
    pub fn get_next_free(&mut self) -> (r: Option<usize>)
        ensures
            final(self).processors == old(self).processors,
            match r {
                None => pq_model(old(self).queue) == pq_empty() && pq_model(final(self).queue)
                    == pq_model(old(self).queue),
                Some(i) => pq_model(old(self).queue).dom().contains(i) && (forall|o: usize|
                    pq_model(old(self).queue).dom().contains(o) ==> pq_model(old(self).queue)[o]
                        <= pq_model(old(self).queue)[i]) && pq_model(final(self).queue) == pq_model(
                    old(self).queue,
                ).remove(i),
            },
    {
        match pq_pop(&mut self.queue) {
            Some((i, _priority)) => Some(i),
            None => None,
        }
    }

    /// Queues a processor again under its current clock.
    pub fn reinsert_with_new_priority(&mut self, processor_num: usize)
        requires
            processor_num < old(self).processors@.len(),
        ensures
            final(self).processors == old(self).processors,
            pq_model(final(self).queue) == pq_model(old(self).queue).insert(
                processor_num,
                spec_pool_priority(old(self).processors@[processor_num as int].time),
            ),
    {
        let time = self.processors[processor_num].time;
        pq_push(&mut self.queue, processor_num, u64::MAX - time);
    }

    /// Wakes one processor at a sender's clock and queues it at its new
    /// time; a processor that was awake keeps its clock.
    pub fn wake_up_at(&mut self, processor_num: usize, time: u64)
        requires
            processor_num < old(self).processors@.len(),
            old(self).processors@[processor_num as int].wf(),
        ensures
            final(self).processors@ == old(self).processors@.update(
                processor_num as int,
                final(self).processors@[processor_num as int],
            ),
            final(self).processors@.len() == old(self).processors@.len(),
            final(self).processors@[processor_num as int].wf(),
            wake_relation(
                old(self).processors@[processor_num as int],
                final(self).processors@[processor_num as int],
                time,
            ),
            pq_model(final(self).queue) == pq_model(old(self).queue).insert(
                processor_num,
                spec_pool_priority(final(self).processors@[processor_num as int].time),
            ),
    {
        let p = &mut self.processors[processor_num];
        p.wake_up_at(time);
        self.reinsert_with_new_priority(processor_num);
    }
}

/// Truncating division of a sum by a positive count, as the component mean.
fn div_trunc(sum: i128, count: u64) -> (r: i64)
    requires
        count >= 1,
        -(count as int) * (crate::vector_3d::COORD_BOUND as int) <= sum <= (count as int) * (
        crate::vector_3d::COORD_BOUND as int),
    ensures
        sum >= 0 ==> r == sum as int / count as int,
        sum < 0 ==> r == -((-(sum as int)) / count as int),
{
    if sum >= 0 {
        let q = (sum as u128) / (count as u128);
        proof {
            lemma_div_bound(sum as int, count as int);
        }
        q as i64
    } else {
        let q = ((-sum) as u128) / (count as u128);
        proof {
            lemma_div_bound(-(sum as int), count as int);
        }
        -(q as i64)
    }
}

/// A mean rounded toward zero stays within the coordinate bound.
proof fn lemma_div_in_coord_range(s: int, c: int)
    requires
        c >= 1,
        -c * (crate::vector_3d::COORD_BOUND as int) <= s <= c * (
        crate::vector_3d::COORD_BOUND as int),
    ensures
        -(crate::vector_3d::COORD_BOUND as int) <= div_toward_zero(s, c) <= (
        crate::vector_3d::COORD_BOUND as int),
{
    if s >= 0 {
        lemma_div_bound(s, c);
    } else {
        lemma_div_bound(-s, c);
    }
}

/// The mean of values bounded by the coordinate bound is bounded by it too.
proof fn lemma_div_bound(s: int, c: int)
    requires
        c >= 1,
        0 <= s <= c * (crate::vector_3d::COORD_BOUND as int),
    ensures
        0 <= s / c <= crate::vector_3d::COORD_BOUND as int,
        s / c <= s,
{
    vstd::arithmetic::div_mod::lemma_div_is_ordered_by_denominator(s, 1, c);
    vstd::arithmetic::div_mod::lemma_basic_div_specific_divisor(1);
    vstd::arithmetic::div_mod::lemma_div_pos_is_pos(s, c);
    vstd::arithmetic::div_mod::lemma_div_is_ordered(s, c * (crate::vector_3d::COORD_BOUND as int), c);
    vstd::arithmetic::div_mod::lemma_div_multiples_vanish(crate::vector_3d::COORD_BOUND as int, c);
}

} // verus!
