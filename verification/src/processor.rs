//! One simulated processor: its clock, its counters, and its three queues.

use std::collections::VecDeque;

use vstd::prelude::*;

use crate::param_file::clip64;
use crate::param_file::sat_add;
use crate::param_file::ParamFile;
use crate::pqueue::pq_empty;
use crate::pqueue::pq_len;
use crate::pqueue::pq_model;
use crate::pqueue::pq_new;
use crate::pqueue::pq_pop;
use crate::pqueue::pq_push;
use crate::pqueue::IntQueue;
use crate::task::Task;
use crate::vector_3d::Vector3D;

verus! {

/// A simulated processor. `queue` holds ready tasks by priority,
/// `send_queue` the tasks routed to other processors since the last drain
/// (as `(destination, task)` pairs, in order), and `receive_queue` the tasks
/// other processors have routed here. All times are ticks; the clock only
/// moves forward.
pub struct Processor {
    pub param_file: ParamFile,
    pub queue: IntQueue,
    pub send_queue: VecDeque<(usize, usize)>,
    pub receive_queue: IntQueue,
    pub domain_center: Vector3D,
    pub num_solved: usize,
    pub time: u64,
    pub num: usize,
    pub asleep: bool,
    pub time_spent_communicating: u64,
    pub time_spent_waiting: u64,
}

impl Processor {
    /// Basic sanity of a processor: the time spent communicating or waiting
    /// never exceeds the clock, and the queue models are finite.
    pub open spec fn wf(self) -> bool {
        &&& self.time_spent_communicating <= self.time
        &&& self.time_spent_waiting <= self.time
        &&& pq_model(self.queue).dom().finite()
        &&& pq_model(self.receive_queue).dom().finite()
    }

    /// A fresh processor at time zero with a given ready queue.
    pub fn new(num: usize, queue: IntQueue, domain_center: Vector3D, param_file: &ParamFile) -> (r:
        Processor)
        requires
            pq_model(queue).dom().finite(),
        ensures
            r.wf(),
            r.param_file == *param_file,
            pq_model(r.queue) == pq_model(queue),
            r.send_queue@ == Seq::<(usize, usize)>::empty(),
            pq_model(r.receive_queue) == pq_empty(),
            r.domain_center == domain_center,
            r.num_solved == 0,
            r.time == 0,
            r.num == num,
            r.asleep == false,
            r.time_spent_communicating == 0,
            r.time_spent_waiting == 0,
    {
        Processor {
            num,
            queue,
            domain_center,
            send_queue: VecDeque::new(),
            receive_queue: pq_new(),
            num_solved: 0,
            time: 0,
            asleep: false,
            time_spent_waiting: 0,
            time_spent_communicating: 0,
            param_file: *param_file,
        }
    }

    /// Pops the highest-priority ready task, if any.
    pub fn get_next_task(&mut self) -> (r: Option<usize>)
        requires
            old(self).wf(),
        ensures
            final(self).wf(),
            (*final(self) == (Processor { queue: final(self).queue, ..*old(self) })),
            match r {
                None => pq_model(old(self).queue) == pq_empty() && pq_model(final(self).queue)
                    == pq_model(old(self).queue),
                Some(task) => pq_model(old(self).queue).dom().contains(task) && (forall|o: usize|
                    pq_model(old(self).queue).dom().contains(o) ==> pq_model(old(self).queue)[o]
                        <= pq_model(old(self).queue)[task]) && pq_model(final(self).queue)
                    == pq_model(old(self).queue).remove(task),
            },
    {
        match pq_pop(&mut self.queue) {
            Some((task, _priority)) => Some(task),
            None => None,
        }
    }

    /// Books one solve: one more task done, the clock advanced by the solve
    /// offset. Dependency bookkeeping belongs to the driver. A task is only
    /// ever solved once nothing upwind of it is left.
    pub fn solve(&mut self, task: &Task)
        requires
            old(self).wf(),
            task.num_upwind == 0,
            old(self).num_solved < usize::MAX,
        ensures
            final(self).wf(),
            (*final(self) == (Processor {
                num_solved: final(self).num_solved,
                time: final(self).time,
                ..*old(self)
            })),
            final(self).num_solved == old(self).num_solved + 1,
            final(self).time == clip64(old(self).time + old(self).param_file.solve_time_offset),
            final(self).time >= old(self).time,
    {
        self.num_solved = self.num_solved + 1;
        self.time = sat_add(self.time, self.param_file.solve_time_offset);
    }

    /// Drains the outgoing queue, charging the send cost for what left.
    /// Returns the drained `(destination, task)` pairs in sending order.
    pub fn send_tasks(&mut self) -> (r: Vec<(usize, usize)>)
        requires
            old(self).wf(),
        ensures
            final(self).wf(),
            (*final(self) == (Processor {
                send_queue: final(self).send_queue,
                time: final(self).time,
                time_spent_communicating: final(self).time_spent_communicating,
                ..*old(self)
            })),
            r@ == old(self).send_queue@,
            final(self).send_queue@ == Seq::<(usize, usize)>::empty(),
            final(self).time == clip64(
                old(self).time + old(self).param_file.spec_send_cost(r@.len()),
            ),
            final(self).time_spent_communicating == clip64(
                old(self).time_spent_communicating + old(self).param_file.spec_send_cost(r@.len()),
            ),
            final(self).time >= old(self).time,
    {
        let ghost sq0 = self.send_queue@;
        let mut r: Vec<(usize, usize)> = Vec::new();
        loop
            invariant
                r@ + self.send_queue@ == sq0,
                (*self == (Processor {
                    send_queue: self.send_queue,
                    ..*old(self)
                })),
            ensures
                r@ == sq0,
                self.send_queue@ == Seq::<(usize, usize)>::empty(),
                (*self == (Processor {
                    send_queue: self.send_queue,
                    ..*old(self)
                })),
            decreases self.send_queue@.len(),
        {
            match self.send_queue.pop_front() {
                Some(entry) => {
                    r.push(entry);
                    proof {
                        assert(r@ + self.send_queue@ =~= sq0);
                    }
                },
                None => {
                    proof {
                        assert(r@ =~= sq0);
                    }
                    break ;
                },
            }
        }
        let cost = self.param_file.send_cost(r.len());
        self.time_spent_communicating = sat_add(self.time_spent_communicating, cost);
        self.time = sat_add(self.time, cost);
        r
    }

    /// Moves everything from the receive queue into the ready queue,
    /// charging the symmetric receive cost. Returns how many tasks arrived.
    pub fn receive_tasks(&mut self) -> (r: usize)
        requires
            old(self).wf(),
        ensures
            final(self).wf(),
            (*final(self) == (Processor {
                queue: final(self).queue,
                receive_queue: final(self).receive_queue,
                time: final(self).time,
                time_spent_communicating: final(self).time_spent_communicating,
                ..*old(self)
            })),
            r == pq_model(old(self).receive_queue).dom().len(),
            pq_model(final(self).receive_queue) == pq_empty(),
            pq_model(final(self).queue) == pq_model(old(self).queue).union_prefer_right(
                pq_model(old(self).receive_queue),
            ),
            final(self).time == clip64(old(self).time + old(self).param_file.spec_send_cost(r as nat)),
            final(self).time_spent_communicating == clip64(
                old(self).time_spent_communicating + old(self).param_file.spec_send_cost(r as nat),
            ),
            final(self).time >= old(self).time,
    {
        let num_received = pq_len(&self.receive_queue);
        let cost = self.param_file.send_cost(num_received);
        let ghost q0 = pq_model(self.queue);
        let ghost r0 = pq_model(self.receive_queue);
        loop
            invariant
                pq_model(self.queue).dom().finite(),
                pq_model(self.receive_queue).dom().finite(),
                pq_model(self.receive_queue).dom().subset_of(r0.dom()),
                forall|k: usize|
                    pq_model(self.receive_queue).dom().contains(k) ==> pq_model(
                        self.receive_queue,
                    )[k] == r0[k],
                pq_model(self.queue) == q0.union_prefer_right(
                    r0.remove_keys(pq_model(self.receive_queue).dom()),
                ),
                (*self == (Processor {
                    queue: self.queue,
                    receive_queue: self.receive_queue,
                    ..*old(self)
                })),
            ensures
                pq_model(self.receive_queue) == pq_empty(),
                pq_model(self.queue) == q0.union_prefer_right(r0),
                (*self == (Processor {
                    queue: self.queue,
                    receive_queue: self.receive_queue,
                    ..*old(self)
                })),
            decreases pq_model(self.receive_queue).dom().len(),
        {
            let ghost cur = pq_model(self.receive_queue);
            match pq_pop(&mut self.receive_queue) {
                Some((task, priority)) => {
                    pq_push(&mut self.queue, task, priority);
                    proof {
                        assert(cur.dom().remove(task).len() < cur.dom().len()) by {
                            broadcast use vstd::set_lib::group_set_properties;

                            assert(cur.dom().contains(task));
                        }
                        assert(pq_model(self.queue) =~= q0.union_prefer_right(
                            r0.remove_keys(pq_model(self.receive_queue).dom()),
                        ));
                    }
                },
                None => {
                    proof {
                        assert(cur =~= pq_empty());
                        assert(r0.remove_keys(cur.dom()) =~= r0);
                    }
                    break ;
                },
            }
        }
        self.time_spent_communicating = sat_add(self.time_spent_communicating, cost);
        self.time = sat_add(self.time, cost);
        num_received
    }

    /// Pushes a ready task under its priority.
    pub fn add_task_to_queue(&mut self, task_index: usize, priority: u64)
        requires
            old(self).wf(),
        ensures
            final(self).wf(),
            (*final(self) == (Processor { queue: final(self).queue, ..*old(self) })),
            pq_model(final(self).queue) == pq_model(old(self).queue).insert(task_index, priority),
    {
        pq_push(&mut self.queue, task_index, priority);
    }

    /// Appends a task bound for another processor to the outgoing queue.
    pub fn add_task_to_send_queue(&mut self, task_index: usize, processor_num: usize)
        requires
            old(self).wf(),
        ensures
            final(self).wf(),
            (*final(self) == (Processor { send_queue: final(self).send_queue, ..*old(self) })),
            final(self).send_queue@ == old(self).send_queue@.push((processor_num, task_index)),
    {
        self.send_queue.push_back((processor_num, task_index));
    }

    /// Pushes a task another processor routed here, under its priority.
    pub fn add_task_to_receive_queue(&mut self, task: usize, priority: u64)
        requires
            old(self).wf(),
        ensures
            final(self).wf(),
            (*final(self) == (Processor { receive_queue: final(self).receive_queue, ..*old(self) })),
            pq_model(final(self).receive_queue) == pq_model(old(self).receive_queue).insert(
                task,
                priority,
            ),
    {
        pq_push(&mut self.receive_queue, task, priority);
    }

    /// Freezes the clock: nothing to do until someone sends work.
    pub fn go_to_sleep(&mut self)
        requires
            old(self).wf(),
        ensures
            final(self).wf(),
            (*final(self) == (Processor { asleep: true, ..*old(self) })),
    {
        self.asleep = true;
    }

    /// Wakes a sleeping processor at a sender's time: a forward jump is
    /// booked as waiting; a time in the past leaves the clock alone.
    pub fn wake_up_at(&mut self, time: u64)
        requires
            old(self).wf(),
        ensures
            final(self).wf(),
            old(self).asleep && time > old(self).time ==> (*final(self) == (Processor {
                asleep: false,
                time: time,
                time_spent_waiting: (clip64(
                    old(self).time_spent_waiting + (time - old(self).time),
                )) as u64,
                ..*old(self)
            })),
            old(self).asleep && time <= old(self).time ==> (*final(self) == (Processor {
                asleep: false,
                ..*old(self)
            })),
            !old(self).asleep ==> *final(self) == *old(self),
            final(self).time >= old(self).time,
    {
        if self.asleep {
            if time > self.time {
                let gap = time - self.time;
                self.time_spent_waiting = sat_add(self.time_spent_waiting, gap);
                self.time = time;
            }
            self.asleep = false;
        }
    }
}

} // verus!
