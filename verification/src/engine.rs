//! A run in progress: the scheduler's state in machine integers, advanced one
//! scheduling decision at a time along the states of the model.

use vstd::prelude::*;
use crate::intake::{
    arrange, arranged, lemma_arranged_schedulable, rejection, schedulable, validate,
};
use crate::job::{Job, PolicyConfig, SimError, Task};
use crate::model::{
    blank, chosen, due, enqueue_arrivals, enqueue_range, entries, finished, idled, index_of, inv,
    inv_core, lemma_due, lemma_enqueue_inv, lemma_enqueue_range_core, lemma_entries_enqueue,
    lemma_entries_lack, lemma_entries_ran, lemma_entries_rotated, lemma_idled_inv,
    lemma_index_of, lemma_queue_of_entries, lemma_ran_inv, lemma_rotated_inv, lemma_slice,
    lemma_start_inv, lemma_step_inv, queue_of, ran, rotated, runner, interruption, start, step,
    untouched, Progress, Sched,
};
use crate::ready::{lemma_slot, ReadySet};
use crate::trace::{record, segments, Label, TraceSegment};

verus! {

/// How far one task has come, in machine integers.
#[derive(Clone, Copy, Debug, PartialEq, Eq)]
pub struct RunState {
    /// Ticks of burst still to execute.
    pub remaining: u64,
    /// The tick at which the task first got the CPU.
    pub first_start: Option<u64>,
    /// The tick at which `remaining` reached zero.
    pub completion: Option<u64>,
    /// The tick at which the task last entered the ready queue.
    pub enqueue_time: u64,
}

pub open spec fn tick_of(t: Option<u64>) -> Option<int> {
    match t {
        Some(x) => Some(x as int),
        None => None,
    }
}

impl View for RunState {
    type V = Progress;

    open spec fn view(&self) -> Progress {
        Progress {
            remaining: self.remaining as int,
            first_start: tick_of(self.first_start),
            completion: tick_of(self.completion),
            enqueue_time: self.enqueue_time as int,
        }
    }
}

/// The model of a table of run states.
pub open spec fn progress_of(run: Seq<RunState>) -> Seq<Progress> {
    run.map_values(|r: RunState| r@)
}

/// A run in progress.
pub struct Simulation {
    tasks: Vec<Task>,
    policy: PolicyConfig,
    run: Vec<RunState>,
    ready: ReadySet,
    trace: Vec<TraceSegment>,
    now: u64,
    arrived: usize,
}

impl View for Simulation {
    type V = Sched;

    closed spec fn view(&self) -> Sched {
        Sched {
            now: self.now as int,
            arrived: self.arrived as int,
            progress: progress_of(self.run@),
            queue: queue_of(self.tasks@, self.ready@),
            trace: segments(self.trace@),
        }
    }
}

impl Simulation {
    /// The tasks of this run, in order of (arrival, identifier).
    pub closed spec fn tasks(&self) -> Seq<Task> {
        self.tasks@
    }

    pub closed spec fn policy(&self) -> PolicyConfig {
        self.policy
    }

    /// All of the invariant but that every arrived task has entered the
    /// queue.
    closed spec fn wf_core(&self) -> bool {
        &&& schedulable(self.tasks@)
        &&& self.policy.valid()
        &&& inv_core(self.tasks@, self@)
        &&& self.ready.wf()
        &&& self.ready@ == entries(self.tasks@, self@)
    }

    /// The state satisfies the model's invariant, and the ready set holds
    /// what the model's queue says.
    pub closed spec fn wf(&self) -> bool {
        &&& self.wf_core()
        &&& inv(self.tasks@, self@)
    }

    /// A well-formed state satisfies the model's invariant.
    pub proof fn lemma_wf(&self)
        requires
            self.wf(),
        ensures
            schedulable(self.tasks()),
            self.policy().valid(),
            inv(self.tasks(), self@),
            self@.now <= u64::MAX,
    {
    }

    /// Starts a run at tick zero.
    pub fn new(tasks: Vec<Task>, policy: PolicyConfig) -> (sim: Simulation)
        requires
            schedulable(tasks@),
            policy.valid(),
        ensures
            sim.wf(),
            sim.tasks() == tasks@,
            sim.policy() == policy,
            sim@ == start(tasks@),
    {
        let n: usize = tasks.len();
        let mut run: Vec<RunState> = Vec::new();
        let mut i: usize = 0;
        while i < n
            invariant
                i <= n,
                n == tasks@.len(),
                run@.len() == i,
                forall|k: int| 0 <= k < i ==> (#[trigger] run@[k])@ == untouched(tasks@[k]),
            decreases n - i,
        {
            run.push(
                RunState {
                    remaining: tasks[i].burst,
                    first_start: None,
                    completion: None,
                    enqueue_time: 0,
                },
            );
            i += 1;
        }
        let mut sim = Simulation {
            tasks,
            policy,
            run,
            ready: ReadySet::new(),
            trace: Vec::new(),
            now: 0,
            arrived: 0,
        };
        proof {
            assert(sim@ =~= blank(sim.tasks@));
            lemma_start_inv(sim.tasks@);
            assert(sim.ready@ =~= entries(sim.tasks@, sim@));
        }
        sim.enqueue_due();
        sim
    }

    /// Checks and arranges a job set and starts a run of it at tick zero.
    /// Fails as `simulate` does on a policy out of range, a defective job or
    /// a repeated identifier.
    pub fn begin(jobs: &Vec<Job>, policy: PolicyConfig) -> (r: Result<Simulation, SimError>)
        ensures
            !policy.valid() ==> r is Err && r->Err_0 == SimError::InvalidConfig,
            policy.valid() && rejection(jobs@) is Some ==> r is Err && r->Err_0 == rejection(
                jobs@,
            )->Some_0,
            policy.valid() && rejection(jobs@) is None ==> r is Ok && r->Ok_0.wf()
                && r->Ok_0.tasks() == arranged(jobs@) && r->Ok_0.policy() == policy && r->Ok_0@
                == start(arranged(jobs@)),
    {
        if !policy.is_valid() {
            return Err(SimError::InvalidConfig);
        }
        let tasks = match validate(jobs) {
            Ok(tasks) => tasks,
            Err(e) => {
                return Err(e);
            },
        };
        let tasks = arrange(&tasks);
        proof {
            lemma_arranged_schedulable(jobs@);
        }
        Ok(Simulation::new(tasks, policy))
    }

    /// Lets every task that has arrived by now enter the ready set.
    fn enqueue_due(&mut self)
        requires
            old(self).wf_core(),
        ensures
            final(self).wf(),
            final(self).tasks@ == old(self).tasks@,
            final(self).policy == old(self).policy,
            final(self)@ == enqueue_arrivals(old(self).tasks@, old(self)@),
    {
        let n: usize = self.tasks.len();
        let ghost s0 = self@;
        let ghost tasks = self.tasks@;
        proof {
            lemma_due(tasks, s0.arrived, s0.now);
            assert(s0 =~= enqueue_range(s0, s0.arrived));
            assert(self.run@.len() == s0.progress.len());
        }
        while self.arrived < n && self.tasks[self.arrived].arrival <= self.now
            invariant
                self.tasks@ == tasks,
                self.policy == old(self).policy,
                n == tasks.len(),
                s0 == old(self)@,
                schedulable(tasks),
                self.policy.valid(),
                inv_core(tasks, s0),
                s0.arrived <= self.arrived <= due(tasks, s0.arrived, s0.now) <= n,
                self.now == s0.now,
                due(tasks, s0.arrived, s0.now) == due(tasks, self.arrived as int, s0.now),
                forall|j: int|
                    s0.arrived <= j < due(tasks, s0.arrived, s0.now) ==> (
                    #[trigger] tasks[j]).arrival <= s0.now,
                self@ == enqueue_range(s0, self.arrived as int),
                self.ready.wf(),
                self.ready@ == entries(tasks, self@),
                self.run@.len() == n,
            decreases n - self.arrived,
        {
            let j: usize = self.arrived;
            let t = self.tasks[j];
            let r = self.run[j];
            let ghost before = self@;
            let ghost run_before = self.run@;
            proof {
                lemma_enqueue_range_core(tasks, s0, j as int);
                lemma_enqueue_range_core(tasks, s0, j + 1);
                lemma_entries_lack(tasks, before, j as int);
                lemma_entries_enqueue(tasks, s0, j as int);
                lemma_queue_of_entries(tasks, enqueue_range(s0, j + 1));
                lemma_due(tasks, j + 1, s0.now);
                assert(before.progress[j as int] == s0.progress[j as int]);
            }
            self.ready.enqueue(t.id, t.arrival, r.remaining, self.now);
            self.run.set(
                j,
                RunState {
                    remaining: r.remaining,
                    first_start: r.first_start,
                    completion: r.completion,
                    enqueue_time: self.now,
                },
            );
            self.arrived = j + 1;
            proof {
                let target = enqueue_range(s0, j + 1);
                assert(self.ready@ == entries(tasks, target));
                assert forall|i: int| 0 <= i < n implies self@.progress[i]
                    == target.progress[i] by {
                    if i != j {
                        assert(self.run@[i] == run_before[i]);
                        assert(before.progress[i] == run_before[i]@);
                    } else {
                        assert(r@ == s0.progress[i]);
                    }
                }
                assert(self@.progress =~= target.progress);
                assert(self@ =~= target);
            }
        }
        proof {
            lemma_enqueue_inv(tasks, s0);
        }
    }

    /// Whether nothing is ready and nothing is still to arrive.
    pub fn is_finished(&self) -> (r: bool)
        ensures
            r == finished(self.tasks(), self@),
    {
        self.ready.is_empty() && self.arrived >= self.tasks.len()
    }

    /// The current tick.
    pub fn now(&self) -> (t: u64)
        ensures
            t == self@.now,
    {
        self.now
    }

    /// The trace so far.
    pub fn trace(&self) -> (t: &Vec<TraceSegment>)
        ensures
            segments(t@) == self@.trace,
    {
        &self.trace
    }

    /// How far each task has come, in the order of `tasks`.
    pub fn run_states(&self) -> (r: &Vec<RunState>)
        ensures
            progress_of(r@) == self@.progress,
    {
        &self.run
    }

    /// The tasks of this run, in order of (arrival, identifier).
    pub fn task_list(&self) -> (t: &Vec<Task>)
        ensures
            t@ == self.tasks(),
    {
        &self.tasks
    }

    /// Ends the run and hands out its tasks, how far each has come, and the
    /// trace.
    pub fn finish(self) -> (parts: (Vec<Task>, Vec<RunState>, Vec<TraceSegment>))
        ensures
            parts.0@ == self.tasks(),
            progress_of(parts.1@) == self@.progress,
            segments(parts.2@) == self@.trace,
    {
        (self.tasks, self.run, self.trace)
    }

    /// The position of the task with this identifier.
    fn locate(&self, id: u64) -> (j: usize)
        requires
            schedulable(self.tasks@),
            exists|k: int| 0 <= k < self.tasks@.len() && (#[trigger] self.tasks@[k]).id == id,
        ensures
            j < self.tasks@.len(),
            self.tasks@[j as int].id == id,
            j == index_of(self.tasks@, id),
    {
        let n: usize = self.tasks.len();
        let mut j: usize = 0;
        while j < n && self.tasks[j].id != id
            invariant
                j <= n,
                n == self.tasks@.len(),
                forall|k: int| 0 <= k < j ==> (#[trigger] self.tasks@[k]).id != id,
            decreases n - j,
        {
            j += 1;
        }
        proof {
            lemma_index_of(self.tasks@, j as int);
        }
        j
    }

    /// The tick at which the slice of task `j` ends if it is dispatched now,
    /// or `None` where that tick does not fit the counter.
    fn plan_slice(&self, j: usize) -> (end: Option<u64>)
        requires
            self.wf(),
            self@.queue.len() > 0,
            j == runner(self.tasks@, self.policy, self@),
        ensures
            match end {
                Some(e) => e == interruption(self.tasks@, self.policy, self@, j as int),
                None => interruption(self.tasks@, self.policy, self@, j as int) > u64::MAX,
            },
    {
        proof {
            lemma_slice(self.tasks@, self.policy, self@);
        }
        let left: u64 = self.run[j].remaining;
        match self.policy {
            PolicyConfig::FCFS => self.now.checked_add(left),
            PolicyConfig::SJN => self.now.checked_add(left),
            PolicyConfig::SRT => {
                if self.arrived < self.tasks.len() {
                    let next: u64 = self.tasks[self.arrived].arrival;
                    assert(next > self.now);
                    if next - self.now < left {
                        Some(next)
                    } else {
                        self.now.checked_add(left)
                    }
                } else {
                    self.now.checked_add(left)
                }
            },
            PolicyConfig::RoundRobin { quantum } => {
                if quantum < left {
                    self.now.checked_add(quantum)
                } else {
                    self.now.checked_add(left)
                }
            },
        }
    }

    /// Runs task `j`, which the policy chose, until `end`.
    fn run_slice(&mut self, id: u64, j: usize, end: u64)
        requires
            old(self).wf(),
            old(self)@.queue.len() > 0,
            j == runner(old(self).tasks@, old(self).policy, old(self)@),
            id == old(self).tasks@[j as int].id,
            end == interruption(old(self).tasks@, old(self).policy, old(self)@, j as int),
        ensures
            final(self).wf_core(),
            final(self).tasks@ == old(self).tasks@,
            final(self).policy == old(self).policy,
            final(self)@ == ran(old(self).tasks@, old(self).policy, old(self)@),
    {
        let ghost s = self@;
        let ghost tasks = self.tasks@;
        let ghost pos = chosen(tasks, self.policy, s);
        let ghost target = ran(tasks, self.policy, s);
        proof {
            lemma_slice(tasks, self.policy, s);
            lemma_ran_inv(tasks, self.policy, s);
            lemma_entries_ran(tasks, self.policy, s);
            lemma_queue_of_entries(tasks, target);
            assert(self.ready@[pos] == entries(tasks, s)[pos]);
            lemma_slot(self.ready@, id, pos);
        }
        let p = self.run[j];
        let now: u64 = self.now;
        let left: u64 = p.remaining - (end - now);
        let first_start = match p.first_start {
            Some(f) => Some(f),
            None => Some(now),
        };
        let completion = if left == 0 {
            Some(end)
        } else {
            None
        };
        self.run.set(
            j,
            RunState { remaining: left, first_start, completion, enqueue_time: p.enqueue_time },
        );
        record(&mut self.trace, now, end, Label::Job(id));
        self.now = end;
        if left == 0 {
            self.ready.remove(id);
        } else {
            self.ready.set_remaining(id, left);
        }
        proof {
            assert(self.ready@ == entries(tasks, target));
            assert(self@.progress =~= target.progress);
            assert(self@ =~= target);
        }
    }

    /// Sends task `j`, whose quantum is used up, to the tail of the queue.
    fn rotate(&mut self, id: u64, j: usize, Ghost(pos): Ghost<int>)
        requires
            old(self).wf_core(),
            0 <= pos < old(self)@.queue.len(),
            old(self)@.queue[pos] == j,
            id == old(self).tasks@[j as int].id,
        ensures
            final(self).wf_core(),
            final(self).tasks@ == old(self).tasks@,
            final(self).policy == old(self).policy,
            final(self)@ == rotated(old(self)@, pos),
    {
        let ghost s = self@;
        let ghost tasks = self.tasks@;
        let ghost target = rotated(s, pos);
        proof {
            lemma_rotated_inv(tasks, s, pos);
            lemma_entries_rotated(tasks, s, pos);
            lemma_queue_of_entries(tasks, target);
            assert(self.ready@[pos] == entries(tasks, s)[pos]);
            lemma_slot(self.ready@, id, pos);
        }
        let p = self.run[j];
        self.ready.rotate(id, self.now);
        self.run.set(
            j,
            RunState {
                remaining: p.remaining,
                first_start: p.first_start,
                completion: p.completion,
                enqueue_time: self.now,
            },
        );
        proof {
            assert(self.ready@ == entries(tasks, target));
            assert(self@.progress =~= target.progress);
            assert(self@ =~= target);
        }
    }

    /// Takes one scheduling decision: dispatches the job that the policy
    /// names and runs its slice, or idles until the next arrival. A finished
    /// run stays as it is. If the clock would pass `last_tick`, nothing
    /// changes and the time limit is reported.
    pub fn advance(&mut self, last_tick: u64) -> (r: Result<(), SimError>)
        requires
            old(self).wf(),
        ensures
            final(self).wf(),
            final(self).tasks() == old(self).tasks(),
            final(self).policy() == old(self).policy(),
            step(old(self).tasks(), old(self).policy(), old(self)@).now <= last_tick ==> r is Ok
                && final(self)@ == step(old(self).tasks(), old(self).policy(), old(self)@),
            step(old(self).tasks(), old(self).policy(), old(self)@).now > last_tick ==> r
                == Err::<(), SimError>(SimError::TimeLimitExceeded) && final(self)@ == old(self)@,
    {
        let ghost s = self@;
        let ghost tasks = self.tasks@;
        if self.ready.is_empty() {
            if self.arrived >= self.tasks.len() {
                if self.now > last_tick {
                    return Err(SimError::TimeLimitExceeded);
                }
                return Ok(());
            }
            let t: u64 = self.tasks[self.arrived].arrival;
            proof {
                lemma_idled_inv(tasks, s);
                lemma_enqueue_inv(tasks, idled(tasks, s));
            }
            if t > last_tick {
                return Err(SimError::TimeLimitExceeded);
            }
            record(&mut self.trace, self.now, t, Label::Idle);
            self.now = t;
            proof {
                assert(self@ =~= idled(tasks, s));
                assert(self.ready@ =~= entries(tasks, self@));
            }
            self.enqueue_due();
            Ok(())
        } else {
            proof {
                lemma_slice(tasks, self.policy, s);
                lemma_ran_inv(tasks, self.policy, s);
                lemma_step_inv(tasks, self.policy, s);
            }
            let ghost pos = chosen(tasks, self.policy, s);
            let id: u64 = self.ready.pick(self.now, &self.policy).unwrap();
            proof {
                assert(self.ready@[pos] == entries(tasks, s)[pos]);
                assert(tasks[s.queue[pos]].id == id);
            }
            let j: usize = self.locate(id);
            proof {
                lemma_index_of(tasks, s.queue[pos]);
            }
            let end: u64 = match self.plan_slice(j) {
                Some(e) => e,
                None => {
                    return Err(SimError::TimeLimitExceeded);
                },
            };
            if end > last_tick {
                return Err(SimError::TimeLimitExceeded);
            }
            self.run_slice(id, j, end);
            let rotating = match self.policy {
                PolicyConfig::RoundRobin { .. } => true,
                _ => false,
            };
            if rotating && self.run[j].remaining > 0 {
                proof {
                    lemma_rotated_inv(tasks, self@, pos);
                }
                self.rotate(id, j, Ghost(pos));
            }
            self.enqueue_due();
            Ok(())
        }
    }
}

} // verus!
