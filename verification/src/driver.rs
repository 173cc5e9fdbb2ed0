//! The public operation: a job set, a policy and the limits go in; the trace
//! and the metrics, or the error that stopped the run, come out.

use vstd::prelude::*;
use crate::engine::Simulation;
use crate::intake::{arranged, rejection, schedulable};
use crate::job::{Job, Limits, PolicyConfig, SimError, Task};
use crate::metrics::{
    aggregate, completed, latest, lemma_latest_is, rows, rows_of, summary, tabulate,
    AggregateMetrics, JobMetrics, MetricsRow, Summary,
};
use crate::model::{
    after, finished, inv, job_inv, lemma_after_settled, lemma_clock_monotone,
    lemma_finished_stays, lemma_step_inv, settled, start, step, Sched,
};
use crate::trace::{segments, Segment, TraceSegment};

verus! {

/// What a run produces: the trace, the metrics table with one row per job in
/// order of (arrival, identifier), and the aggregate figures.
pub struct SimulationResult {
    trace: Vec<TraceSegment>,
    metrics: Vec<JobMetrics>,
    aggregate: AggregateMetrics,
}

/// The model of a result.
pub struct Outcome {
    pub trace: Seq<Segment>,
    pub metrics: Seq<MetricsRow>,
    pub aggregate: Summary,
}

impl View for SimulationResult {
    type V = Outcome;

    closed spec fn view(&self) -> Outcome {
        Outcome {
            trace: segments(self.trace@),
            metrics: rows(self.metrics@),
            aggregate: self.aggregate@,
        }
    }
}

impl SimulationResult {
    /// The execution trace, in order of time.
    pub fn trace(&self) -> (t: &Vec<TraceSegment>)
        ensures
            segments(t@) == self@.trace,
    {
        &self.trace
    }

    /// The metrics table, one row per job in order of (arrival, identifier).
    pub fn metrics(&self) -> (m: &Vec<JobMetrics>)
        ensures
            rows(m@) == self@.metrics,
    {
        &self.metrics
    }

    /// The aggregate figures.
    pub fn aggregate(&self) -> (a: AggregateMetrics)
        ensures
            a@ == self@.aggregate,
    {
        self.aggregate
    }

    /// The row of the job with this identifier: the first one that carries
    /// it, or `None` where no row does.
    pub fn metrics_for(&self, id: u64) -> (r: Option<JobMetrics>)
        ensures
            match r {
                Some(m) => exists|k: int|
                    0 <= k < self@.metrics.len() && self@.metrics[k] == m@ && m.id == id
                        && forall|i: int| 0 <= i < k ==> (#[trigger] self@.metrics[i]).id != id,
                None => forall|i: int|
                    0 <= i < self@.metrics.len() ==> (#[trigger] self@.metrics[i]).id != id,
            },
    {
        let n: usize = self.metrics.len();
        let mut k: usize = 0;
        while k < n
            invariant
                k <= n,
                n == self.metrics@.len(),
                forall|i: int| 0 <= i < k ==> (#[trigger] self@.metrics[i]).id != id,
            decreases n - k,
        {
            if self.metrics[k].id == id {
                assert(self@.metrics[k as int] == self.metrics@[k as int]@);
                return Some(self.metrics[k]);
            }
            assert(self@.metrics[k as int] == self.metrics@[k as int]@);
            k += 1;
        }
        None
    }
}

/// Within the decisions that the limits allow, the clock passes the last
/// tick that they allow.
pub open spec fn time_exceeded(tasks: Seq<Task>, policy: PolicyConfig, limits: Limits) -> bool {
    exists|k: nat|
        limits.allows_steps(k as int) && (#[trigger] after(tasks, policy, k)).now
            > limits.tick_bound()
}

/// The run is not finished after as many decisions as the limits allow.
pub open spec fn steps_exceeded(tasks: Seq<Task>, policy: PolicyConfig, limits: Limits) -> bool {
    limits.max_steps is Some && !finished(
        tasks,
        after(tasks, policy, limits.max_steps->Some_0 as nat),
    )
}

/// The run is finished after `n` decisions.
pub open spec fn halts_at(tasks: Seq<Task>, policy: PolicyConfig, n: nat) -> bool {
    finished(tasks, after(tasks, policy, n))
}

/// The state in which the run finishes. Meaningful where the run halts.
pub open spec fn final_state(tasks: Seq<Task>, policy: PolicyConfig) -> Sched {
    after(tasks, policy, choose|n: nat| halts_at(tasks, policy, n))
}

/// What a finished state yields: its trace, the metrics table and the
/// aggregate figures.
pub open spec fn outcome_of(tasks: Seq<Task>, s: Sched) -> Outcome {
    let table = rows_of(tasks, s.progress);
    Outcome { trace: s.trace, metrics: table, aggregate: summary(table, s.trace) }
}

/// How a run of arranged tasks ends: with the time limit where the clock
/// passes it, else with the step limit where the decisions run out, else
/// with the outcome of the finished state.
pub open spec fn run_verdict(tasks: Seq<Task>, policy: PolicyConfig, limits: Limits) -> Result<
    Outcome,
    SimError,
> {
    if time_exceeded(tasks, policy, limits) {
        Err(SimError::TimeLimitExceeded)
    } else if steps_exceeded(tasks, policy, limits) {
        Err(SimError::StepLimitExceeded)
    } else {
        Ok(outcome_of(tasks, final_state(tasks, policy)))
    }
}

/// How `simulate` ends on every input. Errors come in this order: a policy
/// out of range, the first defective job, the first repeated identifier,
/// then the limits.
pub open spec fn verdict(jobs: Seq<Job>, policy: PolicyConfig, limits: Limits) -> Result<
    Outcome,
    SimError,
> {
    if !policy.valid() {
        Err(SimError::InvalidConfig)
    } else if rejection(jobs) is Some {
        Err(rejection(jobs)->Some_0)
    } else {
        run_verdict(arranged(jobs), policy, limits)
    }
}

/// The result `r` is what the verdict prescribes: the error it names, or a
/// result whose model is the outcome it names.
pub open spec fn answers(
    jobs: Seq<Job>,
    policy: PolicyConfig,
    limits: Limits,
    r: Result<SimulationResult, SimError>,
) -> bool {
    match verdict(jobs, policy, limits) {
        Ok(o) => r is Ok && r->Ok_0@ == o,
        Err(e) => r is Err && r->Err_0 == e,
    }
}

/// All runs that halt end in the same state.
pub proof fn lemma_final_state(tasks: Seq<Task>, policy: PolicyConfig, n: nat)
    requires
        halts_at(tasks, policy, n),
    ensures
        final_state(tasks, policy) == after(tasks, policy, n),
        finished(tasks, final_state(tasks, policy)),
{
    let h = choose|h: nat| halts_at(tasks, policy, h);
    assert(halts_at(tasks, policy, h));
    if h <= n {
        lemma_finished_stays(tasks, policy, h, n);
    } else {
        lemma_finished_stays(tasks, policy, n, h);
    }
}

/// In a finished state every task is completed, and the latest completion is
/// where the clock and the trace end.
pub proof fn lemma_finished_complete(tasks: Seq<Task>, s: Sched)
    requires
        inv(tasks, s),
        settled(tasks, s),
        finished(tasks, s),
    ensures
        forall|j: int| 0 <= j < tasks.len() ==> completed(tasks[j], #[trigger] s.progress[j]),
        latest(rows_of(tasks, s.progress)) == s.now,
{
    assert forall|j: int| 0 <= j < tasks.len() implies completed(
        tasks[j],
        #[trigger] s.progress[j],
    ) by {
        assert(job_inv(tasks[j], s.progress[j], s.now));
        if s.progress[j].remaining >= 1 {
            assert(s.queue.contains(j));
        }
    }
    let table = rows_of(tasks, s.progress);
    if tasks.len() > 0 {
        assert forall|i: int| 0 <= i < table.len() implies 0 <= (
        #[trigger] table[i]).completion_time <= s.now by {
            assert(job_inv(tasks[i], s.progress[i], s.now));
            assert(completed(tasks[i], s.progress[i]));
        }
        let j = choose|j: int|
            0 <= j < tasks.len() && (#[trigger] s.progress[j]).completion == Some(s.now);
        assert(table[j].completion_time == s.now);
        lemma_latest_is(table, s.now);
    }
}

/// Takes a run from its start to its end, or to the limit that stops it.
pub fn run_to_end(fresh: Simulation, limits: Limits) -> (r: Result<SimulationResult, SimError>)
    requires
        fresh.wf(),
        fresh@ == start(fresh.tasks()),
    ensures
        match run_verdict(fresh.tasks(), fresh.policy(), limits) {
            Ok(o) => r is Ok && r->Ok_0@ == o,
            Err(e) => r is Err && r->Err_0 == e,
        },
{
    let ghost ts = fresh.tasks();
    let ghost policy = fresh.policy();
    let last_tick: u64 = limits.last_tick();
    let mut sim = fresh;
    let mut steps: u64 = 0;
    proof {
        sim.lemma_wf();
    }
    while !sim.is_finished()
        invariant
            ts == fresh.tasks(),
            policy == fresh.policy(),
            sim.wf(),
            sim.tasks() == ts,
            sim.policy() == policy,
            schedulable(ts),
            policy.valid(),
            sim@ == after(ts, policy, steps as nat),
            limits.allows_steps(steps as int),
            steps <= sim@.now <= last_tick,
            last_tick == limits.tick_bound(),
        decreases last_tick - sim@.now,
    {
        let ghost before = sim@;
        proof {
            sim.lemma_wf();
            lemma_step_inv(ts, policy, before);
        }
        match limits.max_steps {
            Some(l) => {
                if steps >= l {
                    proof {
                        assert forall|k: nat| limits.allows_steps(k as int) implies (
                        #[trigger] after(ts, policy, k)).now <= limits.tick_bound() by {
                            lemma_clock_monotone(ts, policy, k, steps as nat);
                        }
                    }
                    return Err(SimError::StepLimitExceeded);
                }
            },
            None => {},
        }
        match sim.advance(last_tick) {
            Err(e) => {
                proof {
                    let k = (steps + 1) as nat;
                    assert(after(ts, policy, k) == step(ts, policy, before));
                    assert(limits.allows_steps(k as int));
                }
                return Err(e);
            },
            Ok(()) => {},
        }
        steps = steps + 1;
        proof {
            sim.lemma_wf();
        }
    }
    let ghost end = sim@;
    proof {
        sim.lemma_wf();
        lemma_after_settled(ts, policy, steps as nat);
        lemma_final_state(ts, policy, steps as nat);
        lemma_finished_complete(ts, end);
        assert forall|k: nat| limits.allows_steps(k as int) implies (
        #[trigger] after(ts, policy, k)).now <= limits.tick_bound() by {
            if k <= steps {
                lemma_clock_monotone(ts, policy, k, steps as nat);
            } else {
                lemma_finished_stays(ts, policy, steps as nat, k);
            }
        }
        if limits.max_steps is Some {
            lemma_finished_stays(ts, policy, steps as nat, limits.max_steps->Some_0 as nat);
        }
    }
    let (tasks, run, trace) = sim.finish();
    proof {
        assert forall|j: int| 0 <= j < tasks@.len() implies completed(
            tasks@[j],
            (#[trigger] run@[j])@,
        ) by {
            assert(completed(ts[j], end.progress[j]));
            assert(end.progress[j] == run@[j]@);
        }
    }
    let table = tabulate(&tasks, &run);
    let figures = aggregate(&table, &trace);
    Ok(SimulationResult { trace, metrics: table, aggregate: figures })
}

/// Simulates the scheduling of `jobs` on one CPU under `policy`.
///
/// The jobs may come in any order. An empty job set gives an empty trace and
/// empty metrics. The run is fully determined by the inputs.
pub fn simulate(jobs: &Vec<Job>, policy: PolicyConfig, limits: Limits) -> (r: Result<
    SimulationResult,
    SimError,
>)
    ensures
        answers(jobs@, policy, limits, r),
{
    match Simulation::begin(jobs, policy) {
        Ok(sim) => {
            proof {
                sim.lemma_wf();
            }
            run_to_end(sim, limits)
        },
        Err(e) => Err(e),
    }
}

} // verus!
