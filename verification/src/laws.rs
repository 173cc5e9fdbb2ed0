//! What holds of every run, stated over the verdict of `simulate` and over
//! the states that a run passes through.

use vstd::prelude::*;
use crate::driver::{
    answers, final_state, halts_at, lemma_final_state, lemma_finished_complete, outcome_of,
    run_verdict, steps_exceeded, time_exceeded, verdict, Outcome, SimulationResult,
};
use crate::intake::{
    arranged, has_defect, lemma_arranged_rearranged, lemma_arranged_schedulable, rejection,
    schedulable, tasks_of,
};
use crate::invariants::{
    in_one_piece, lemma_after_accounted, lemma_after_completes_in_order, lemma_after_conserves,
    lemma_after_idles_only_when_free, lemma_after_queue_unstarted,
    lemma_after_runs_in_one_piece, lemma_after_runs_within_life, lemma_after_same_as_fcfs,
    lemma_clock_bound, lemma_total_burst_rearranged, lemma_total_remaining_zero, last_arrival,
    out_of_the_way, total_burst, within_life,
};
use crate::job::{Job, Limits, PolicyConfig, SimError, Task};
use crate::metrics::{completed, rows_of, MetricsRow};
use crate::model::{
    after, chosen, entries, finished, inv, job_inv, lemma_after_inv, lemma_after_settled,
    lemma_due, lemma_ran_inv, lemma_rotated_inv, lemma_slice, ran, rotated, runner, settled,
    interruption, step, Sched,
};
use crate::ready::outranks;
use crate::trace::{
    busy_ticks, lemma_segment_bounds, lemma_ticks_cover, span_end, ticks_of, well_formed,
    Label, Segment,
};

verus! {

/// A run that no limit stops comes to an end: after the returned number of
/// decisions the state is finished, and it is the final state.
pub proof fn lemma_run_halts(tasks: Seq<Task>, policy: PolicyConfig, limits: Limits) -> (n: nat)
    requires
        schedulable(tasks),
        policy.valid(),
        run_verdict(tasks, policy, limits) is Ok,
    ensures
        halts_at(tasks, policy, n),
        final_state(tasks, policy) == after(tasks, policy, n),
        finished(tasks, final_state(tasks, policy)),
        inv(tasks, final_state(tasks, policy)),
        settled(tasks, final_state(tasks, policy)),
        run_verdict(tasks, policy, limits) == Ok::<Outcome, SimError>(
            outcome_of(tasks, final_state(tasks, policy)),
        ),
{
    assert(!time_exceeded(tasks, policy, limits));
    assert(!steps_exceeded(tasks, policy, limits));
    let n: nat = match limits.max_steps {
        Some(l) => l as nat,
        None => limits.tick_bound() as nat,
    };
    if limits.max_steps is None {
        let next = n + 1;
        assert(limits.allows_steps(next as int));
        assert(after(tasks, policy, next).now <= limits.tick_bound());
        lemma_after_inv(tasks, policy, next);
    }
    lemma_final_state(tasks, policy, n);
    lemma_after_inv(tasks, policy, n);
    lemma_after_settled(tasks, policy, n);
    n
}

/// What an accepted input gives: schedulable tasks and a finished final
/// state whose outcome is the verdict.
pub proof fn lemma_verdict_ok(jobs: Seq<Job>, policy: PolicyConfig, limits: Limits) -> (n: nat)
    requires
        verdict(jobs, policy, limits) is Ok,
    ensures
        policy.valid(),
        rejection(jobs) is None,
        schedulable(arranged(jobs)),
        final_state(arranged(jobs), policy) == after(arranged(jobs), policy, n),
        finished(arranged(jobs), final_state(arranged(jobs), policy)),
        inv(arranged(jobs), final_state(arranged(jobs), policy)),
        settled(arranged(jobs), final_state(arranged(jobs), policy)),
        verdict(jobs, policy, limits) == Ok::<Outcome, SimError>(
            outcome_of(arranged(jobs), final_state(arranged(jobs), policy)),
        ),
{
    lemma_arranged_schedulable(jobs);
    lemma_run_halts(arranged(jobs), policy, limits)
}

/// Every job completes no earlier than its arrival plus its burst.
pub proof fn law_completion_after_arrival_plus_burst(
    jobs: Seq<Job>,
    policy: PolicyConfig,
    limits: Limits,
)
    requires
        verdict(jobs, policy, limits) is Ok,
    ensures
        ({
            let table = verdict(jobs, policy, limits)->Ok_0.metrics;
            forall|k: int|
                0 <= k < table.len() ==> (#[trigger] table[k]).completion_time >= table[k].arrival
                    + table[k].burst
        }),
{
    let n = lemma_verdict_ok(jobs, policy, limits);
    let tasks = arranged(jobs);
    let s = final_state(tasks, policy);
    lemma_finished_complete(tasks, s);
    let table = verdict(jobs, policy, limits)->Ok_0.metrics;
    assert(table == rows_of(tasks, s.progress));
    assert forall|k: int| 0 <= k < table.len() implies (#[trigger] table[k]).completion_time
        >= table[k].arrival + table[k].burst by {
        assert(completed(tasks[k], s.progress[k]));
    }
}

/// No job has a negative waiting time or a negative response time.
pub proof fn law_waiting_and_response_nonnegative(
    jobs: Seq<Job>,
    policy: PolicyConfig,
    limits: Limits,
)
    requires
        verdict(jobs, policy, limits) is Ok,
    ensures
        ({
            let table = verdict(jobs, policy, limits)->Ok_0.metrics;
            forall|k: int|
                0 <= k < table.len() ==> (#[trigger] table[k]).waiting_time >= 0
                    && table[k].response_time >= 0
        }),
{
    let n = lemma_verdict_ok(jobs, policy, limits);
    let tasks = arranged(jobs);
    let s = final_state(tasks, policy);
    lemma_finished_complete(tasks, s);
    let table = verdict(jobs, policy, limits)->Ok_0.metrics;
    assert(table == rows_of(tasks, s.progress));
    assert forall|k: int| 0 <= k < table.len() implies (#[trigger] table[k]).waiting_time >= 0
        && table[k].response_time >= 0 by {
        assert(completed(tasks[k], s.progress[k]));
    }
}

/// The metrics table has one row per job: the rows are the jobs in order of
/// (arrival, identifier), and the figures of each row follow from its
/// completion time and its response time.
pub proof fn law_metrics_table(jobs: Seq<Job>, policy: PolicyConfig, limits: Limits)
    requires
        verdict(jobs, policy, limits) is Ok,
    ensures
        ({
            let table = verdict(jobs, policy, limits)->Ok_0.metrics;
            let tasks = arranged(jobs);
            &&& table.len() == jobs.len()
            &&& tasks.to_multiset() == tasks_of(jobs).to_multiset()
            &&& forall|k: int|
                0 <= k < table.len() ==> {
                    &&& (#[trigger] table[k]).id == tasks[k].id
                    &&& table[k].arrival == tasks[k].arrival
                    &&& table[k].burst == tasks[k].burst
                    &&& table[k].turnaround_time == table[k].completion_time - table[k].arrival
                    &&& table[k].waiting_time == table[k].turnaround_time - table[k].burst
                    &&& table[k].response_time <= table[k].waiting_time
                }
        }),
{
    let n = lemma_verdict_ok(jobs, policy, limits);
    let tasks = arranged(jobs);
    let s = final_state(tasks, policy);
    lemma_finished_complete(tasks, s);
    lemma_arranged_schedulable(jobs);
    let table = verdict(jobs, policy, limits)->Ok_0.metrics;
    assert(table == rows_of(tasks, s.progress));
    assert forall|k: int| 0 <= k < table.len() implies (#[trigger] table[k]).response_time
        <= table[k].waiting_time by {
        assert(completed(tasks[k], s.progress[k]));
    }
}

/// The trace starts at tick zero, its segments are non-empty and follow one
/// another without gap or overlap, and neighbours carry distinct labels.
pub proof fn law_trace_well_formed(jobs: Seq<Job>, policy: PolicyConfig, limits: Limits)
    requires
        verdict(jobs, policy, limits) is Ok,
    ensures
        well_formed(verdict(jobs, policy, limits)->Ok_0.trace),
{
    let n = lemma_verdict_ok(jobs, policy, limits);
}

/// The sum of the bursts of a job set.
pub open spec fn total_job_burst(jobs: Seq<Job>) -> int
    decreases jobs.len(),
{
    if jobs.len() == 0 {
        0
    } else {
        total_job_burst(jobs.drop_last()) + jobs.last().burst
    }
}

proof fn lemma_total_job_burst(jobs: Seq<Job>)
    requires
        forall|i: int| 0 <= i < jobs.len() ==> (#[trigger] jobs[i]).defect() is None,
    ensures
        total_burst(tasks_of(jobs)) == total_job_burst(jobs),
    decreases jobs.len(),
{
    if jobs.len() > 0 {
        let rest = jobs.drop_last();
        assert forall|i: int| 0 <= i < rest.len() implies (#[trigger] rest[i]).defect() is None by {
            assert(jobs[i].defect() is None);
        }
        lemma_total_job_burst(rest);
        assert(tasks_of(jobs).drop_last() =~= tasks_of(rest));
        assert(jobs[jobs.len() - 1].defect() is None);
    }
}

/// The segments in which a job ran add up to the sum of the bursts.
pub proof fn law_busy_time_is_total_burst(jobs: Seq<Job>, policy: PolicyConfig, limits: Limits)
    requires
        verdict(jobs, policy, limits) is Ok,
    ensures
        busy_ticks(verdict(jobs, policy, limits)->Ok_0.trace) == total_job_burst(jobs),
{
    let n = lemma_verdict_ok(jobs, policy, limits);
    let tasks = arranged(jobs);
    let s = final_state(tasks, policy);
    lemma_after_conserves(tasks, policy, n);
    lemma_finished_complete(tasks, s);
    assert forall|i: int| 0 <= i < s.progress.len() implies (#[trigger] s.progress[i]).remaining
        == 0 by {
        assert(completed(tasks[i], s.progress[i]));
        assert(job_inv(tasks[i], s.progress[i], s.now));
    }
    lemma_total_remaining_zero(s.progress);
    lemma_arranged_schedulable(jobs);
    lemma_total_burst_rearranged(tasks, tasks_of(jobs));
    assert forall|i: int| 0 <= i < jobs.len() implies (#[trigger] jobs[i]).defect() is None by {
        assert(!has_defect(jobs));
    }
    lemma_total_job_burst(jobs);
}

/// The trace ends at the makespan, the makespan is the sum of the bursts
/// plus the idle time, and the CPU utilization lies between zero and one.
pub proof fn law_makespan_is_busy_plus_idle(jobs: Seq<Job>, policy: PolicyConfig, limits: Limits)
    requires
        verdict(jobs, policy, limits) is Ok,
    ensures
        ({
            let a = verdict(jobs, policy, limits)->Ok_0.aggregate;
            &&& span_end(verdict(jobs, policy, limits)->Ok_0.trace) == a.makespan
            &&& a.job_count == jobs.len()
            &&& a.makespan == total_job_burst(jobs) + a.total_idle_ticks
            &&& a.total_idle_ticks >= 0
            &&& 0 <= a.cpu_utilization.numerator <= a.cpu_utilization.denominator
            &&& a.cpu_utilization.numerator == total_job_burst(jobs)
            &&& a.cpu_utilization.denominator == a.makespan
        }),
{
    let n = lemma_verdict_ok(jobs, policy, limits);
    let tasks = arranged(jobs);
    let s = final_state(tasks, policy);
    lemma_finished_complete(tasks, s);
    lemma_arranged_schedulable(jobs);
    law_busy_time_is_total_burst(jobs, policy, limits);
    lemma_ticks_cover(s.trace);
}

/// Two results for the same input are the same: both the same error, or
/// both the same trace, metrics and aggregate figures.
pub proof fn law_deterministic(
    jobs: Seq<Job>,
    policy: PolicyConfig,
    limits: Limits,
    first: Result<SimulationResult, SimError>,
    second: Result<SimulationResult, SimError>,
)
    requires
        answers(jobs, policy, limits, first),
        answers(jobs, policy, limits, second),
    ensures
        first is Ok <==> second is Ok,
        first is Ok ==> first->Ok_0@ == second->Ok_0@,
        first is Err ==> first->Err_0 == second->Err_0,
{
}

/// Under first come, first served, jobs complete in order of (arrival,
/// identifier): the metrics table is in that order, and completion times
/// grow strictly along it.
pub proof fn law_fcfs_completes_in_arrival_order(jobs: Seq<Job>, limits: Limits)
    requires
        verdict(jobs, PolicyConfig::FCFS, limits) is Ok,
    ensures
        ({
            let table = verdict(jobs, PolicyConfig::FCFS, limits)->Ok_0.metrics;
            forall|i: int, k: int|
                0 <= i < k < table.len() ==> {
                    &&& (#[trigger] table[i]).completion_time < (
                    #[trigger] table[k]).completion_time
                    &&& table[i].arrival < table[k].arrival || (table[i].arrival
                        == table[k].arrival && table[i].id < table[k].id)
                }
        }),
{
    let policy = PolicyConfig::FCFS;
    let n = lemma_verdict_ok(jobs, policy, limits);
    let tasks = arranged(jobs);
    let s = final_state(tasks, policy);
    lemma_finished_complete(tasks, s);
    lemma_after_completes_in_order(tasks, n);
    let table = verdict(jobs, policy, limits)->Ok_0.metrics;
    assert(table == rows_of(tasks, s.progress));
    assert forall|i: int, k: int| 0 <= i < k < table.len() implies {
        &&& (#[trigger] table[i]).completion_time < (#[trigger] table[k]).completion_time
        &&& table[i].arrival < table[k].arrival || (table[i].arrival == table[k].arrival
            && table[i].id < table[k].id)
    } by {
        assert(completed(tasks[k], s.progress[k]));
        assert(completed(tasks[i], s.progress[i]));
        assert(tasks[i].arrival <= tasks[k].arrival);
    }
}

/// Task `j` is ready at tick `t`: it has arrived and is not completed.
pub open spec fn ready_at(tasks: Seq<Task>, s: Sched, j: int, t: int) -> bool {
    0 <= j < tasks.len() && tasks[j].arrival <= t && s.progress[j].completion is None
}

/// At a dispatch, the ready tasks are the queued ones, and the policy's
/// choice outranks each of them.
proof fn lemma_choice_outranks(tasks: Seq<Task>, policy: PolicyConfig, s: Sched, j: int) -> (m: int)
    requires
        schedulable(tasks),
        policy.valid(),
        inv(tasks, s),
        s.queue.len() > 0,
        0 <= j < s.arrived,
        s.progress[j].completion is None,
    ensures
        0 <= m < s.queue.len(),
        s.queue[m] == j,
        outranks(
            policy,
            entries(tasks, s)[chosen(tasks, policy, s)],
            entries(tasks, s)[m],
        ),
{
    lemma_slice(tasks, policy, s);
    assert(job_inv(tasks[j], s.progress[j], s.now));
    assert(s.progress[j].remaining >= 1);
    assert(s.queue.contains(j));
    let m = choose|m: int| 0 <= m < s.queue.len() && s.queue[m] == j;
    m
}

/// Under shortest job next, the job dispatched at any decision is ready and
/// has the least burst among the jobs that are ready then.
pub proof fn law_sjn_dispatches_least_burst(jobs: Seq<Job>, n: nat)
    requires
        rejection(jobs) is None,
        after(arranged(jobs), PolicyConfig::SJN, n).queue.len() > 0,
    ensures
        ({
            let tasks = arranged(jobs);
            let s = after(tasks, PolicyConfig::SJN, n);
            let run = runner(tasks, PolicyConfig::SJN, s);
            &&& ready_at(tasks, s, run, s.now)
            &&& forall|j: int| #[trigger]
                ready_at(tasks, s, j, s.now) ==> tasks[run].burst <= tasks[j].burst
        }),
{
    let policy = PolicyConfig::SJN;
    let tasks = arranged(jobs);
    let s = after(tasks, policy, n);
    lemma_arranged_schedulable(jobs);
    lemma_after_inv(tasks, policy, n);
    lemma_after_queue_unstarted(tasks, policy, n);
    lemma_slice(tasks, policy, s);
    let pos = chosen(tasks, policy, s);
    let run = s.queue[pos];
    assert(job_inv(tasks[run], s.progress[run], s.now));
    assert(tasks[run].arrival <= s.now);
    assert forall|j: int| #[trigger] ready_at(tasks, s, j, s.now) implies tasks[run].burst
        <= tasks[j].burst by {
        if j >= s.arrived {
            assert(tasks[j].arrival > s.now);
        }
        let m = lemma_choice_outranks(tasks, policy, s, j);
        assert(job_inv(tasks[j], s.progress[j], s.now));
        assert(s.progress[s.queue[m]].remaining == tasks[s.queue[m]].burst);
        assert(s.progress[s.queue[pos]].remaining == tasks[s.queue[pos]].burst);
    }
}

/// Under shortest remaining time, at every tick of a slice the running job
/// has no more left than any job that is ready at that tick.
pub proof fn law_srt_runs_least_remaining(jobs: Seq<Job>, n: nat)
    requires
        rejection(jobs) is None,
        after(arranged(jobs), PolicyConfig::SRT, n).queue.len() > 0,
    ensures
        ({
            let tasks = arranged(jobs);
            let s = after(tasks, PolicyConfig::SRT, n);
            let run = runner(tasks, PolicyConfig::SRT, s);
            let end = interruption(tasks, PolicyConfig::SRT, s, run);
            &&& ready_at(tasks, s, run, s.now)
            &&& s.now < end
            &&& forall|j: int, t: int|
                s.now <= t < end && #[trigger] ready_at(tasks, s, j, t)
                    ==> s.progress[run].remaining - (t - s.now) <= s.progress[j].remaining
        }),
{
    let policy = PolicyConfig::SRT;
    let tasks = arranged(jobs);
    let s = after(tasks, policy, n);
    lemma_arranged_schedulable(jobs);
    lemma_after_inv(tasks, policy, n);
    lemma_slice(tasks, policy, s);
    let pos = chosen(tasks, policy, s);
    let run = s.queue[pos];
    let end = interruption(tasks, policy, s, run);
    assert(job_inv(tasks[run], s.progress[run], s.now));
    assert(tasks[run].arrival <= s.now);
    assert forall|j: int, t: int| s.now <= t < end && #[trigger] ready_at(tasks, s, j, t) implies
        s.progress[run].remaining - (t - s.now) <= s.progress[j].remaining by {
        if j >= s.arrived {
            assert(tasks[s.arrived].arrival <= tasks[j].arrival);
        }
        let m = lemma_choice_outranks(tasks, policy, s, j);
        assert(job_inv(tasks[j], s.progress[j], s.now));
    }
}

/// Under round robin the head of the queue runs, for at most one quantum.
/// If it is not finished then, it goes behind every job that was in the
/// queue with it. So it runs again at the very next decision only if no
/// other job was ready when its slice began; and if no job arrived during
/// the slice either, no other job is ready when it runs again.
pub proof fn law_round_robin_takes_turns(jobs: Seq<Job>, quantum: u64, n: nat)
    requires
        rejection(jobs) is None,
        quantum >= 1,
        after(arranged(jobs), PolicyConfig::RoundRobin { quantum }, n).queue.len() > 0,
    ensures
        ({
            let policy = PolicyConfig::RoundRobin { quantum };
            let tasks = arranged(jobs);
            let s = after(tasks, policy, n);
            let next = after(tasks, policy, n + 1);
            let run = runner(tasks, policy, s);
            let others = s.queue.len() - 1;
            &&& run == s.queue[0]
            &&& ready_at(tasks, s, run, s.now)
            &&& s.now < interruption(tasks, policy, s, run) <= s.now + quantum
            &&& next.now == interruption(tasks, policy, s, run)
            &&& next.queue.len() >= others
            &&& forall|k: int| 0 <= k < others ==> #[trigger] next.queue[k] == s.queue[k + 1]
            &&& next.progress[run].remaining > 0 ==> next.queue.len() > others
                && next.queue[others] == run
            &&& next.queue.len() > 0 && runner(tasks, policy, next) == run ==> forall|j: int|
             #[trigger] ready_at(tasks, s, j, s.now) ==> j == run
            &&& next.queue.len() > 0 && runner(tasks, policy, next) == run && next.arrived
                == s.arrived ==> forall|j: int| #[trigger]
                ready_at(tasks, next, j, next.now) ==> j == run
        }),
{
    let policy = PolicyConfig::RoundRobin { quantum };
    let tasks = arranged(jobs);
    let s = after(tasks, policy, n);
    let next = after(tasks, policy, n + 1);
    let others = s.queue.len() - 1;
    lemma_arranged_schedulable(jobs);
    lemma_after_inv(tasks, policy, n);
    lemma_after_inv(tasks, policy, n + 1);
    lemma_slice(tasks, policy, s);
    lemma_ran_inv(tasks, policy, s);
    let run = s.queue[0];
    let r = ran(tasks, policy, s);
    assert(next == step(tasks, policy, s));
    assert(job_inv(tasks[run], s.progress[run], s.now));
    assert(tasks[run].arrival <= s.now);
    assert(job_inv(tasks[run], r.progress[run], r.now));
    assert forall|k: int| 0 <= k < others implies #[trigger] next.queue[k] == s.queue[k + 1] by {
        if r.progress[run].remaining > 0 {
            assert(rotated(r, 0).queue[k] == s.queue[k + 1]);
        } else {
            assert(r.queue[k] == s.queue[k + 1]);
        }
    }
    if r.progress[run].remaining > 0 {
        lemma_rotated_inv(tasks, r, 0);
        assert(rotated(r, 0).queue[others] == run);
        assert(next.queue[others] == run);
        assert(next.progress[run].remaining == r.progress[run].remaining);
    } else {
        lemma_due(tasks, r.arrived, r.now);
        assert(next.progress[run] == r.progress[run]);
    }
    if next.queue.len() > 0 && runner(tasks, policy, next) == run {
        lemma_slice(tasks, policy, next);
        assert(next.queue[0] == run);
        assert(next.progress[run].remaining >= 1);
        if others > 0 {
            assert(next.queue[0] != next.queue[others]);
        }
        assert forall|j: int| #[trigger] ready_at(tasks, s, j, s.now) implies j == run by {
            if j >= s.arrived {
                assert(tasks[j].arrival > s.now);
            }
            let m = lemma_choice_outranks(tasks, policy, s, j);
        }
        if next.arrived == s.arrived {
            assert forall|j: int| #[trigger] ready_at(tasks, next, j, next.now) implies j
                == run by {
                if j >= next.arrived {
                    assert(tasks[j].arrival > next.now);
                }
                let m = lemma_choice_outranks(tasks, policy, next, j);
            }
        }
    }
}

/// With a quantum that covers every burst, round robin gives what first
/// come, first served gives: the same error, or the same trace and figures.
pub proof fn law_round_robin_with_covering_quantum_is_fcfs(
    jobs: Seq<Job>,
    quantum: u64,
    limits: Limits,
)
    requires
        quantum >= 1,
        forall|i: int| 0 <= i < jobs.len() ==> (#[trigger] jobs[i]).burst <= quantum,
    ensures
        verdict(jobs, PolicyConfig::RoundRobin { quantum }, limits) == verdict(
            jobs,
            PolicyConfig::FCFS,
            limits,
        ),
{
    let rr = PolicyConfig::RoundRobin { quantum };
    let fcfs = PolicyConfig::FCFS;
    if rejection(jobs) is None {
        let tasks = arranged(jobs);
        lemma_arranged_schedulable(jobs);
        assert forall|p: int| 0 <= p < tasks.len() implies (#[trigger] tasks[p]).burst
            <= quantum by {
            assert(tasks_of(jobs).contains(tasks[p]));
            let k = choose|k: int| 0 <= k < tasks_of(jobs).len() && tasks_of(jobs)[k] == tasks[p];
            assert(!has_defect(jobs));
            assert(jobs[k].defect() is None);
            assert(jobs[k].burst <= quantum);
        }
        assert forall|k: nat| #[trigger] after(tasks, rr, k) == after(tasks, fcfs, k) by {
            lemma_after_same_as_fcfs(tasks, quantum, k);
        }
        if time_exceeded(tasks, fcfs, limits) {
            let k = choose|k: nat|
                limits.allows_steps(k as int) && (#[trigger] after(tasks, fcfs, k)).now
                    > limits.tick_bound();
            assert(after(tasks, rr, k) == after(tasks, fcfs, k));
            assert(time_exceeded(tasks, rr, limits));
        }
        if time_exceeded(tasks, rr, limits) {
            let k = choose|k: nat|
                limits.allows_steps(k as int) && (#[trigger] after(tasks, rr, k)).now
                    > limits.tick_bound();
            assert(after(tasks, rr, k) == after(tasks, fcfs, k));
            assert(time_exceeded(tasks, fcfs, limits));
        }
        if limits.max_steps is Some {
            let l = limits.max_steps->Some_0 as nat;
            assert(after(tasks, rr, l) == after(tasks, fcfs, l));
        }
        if run_verdict(tasks, fcfs, limits) is Ok {
            let n = lemma_run_halts(tasks, fcfs, limits);
            assert(after(tasks, rr, n) == after(tasks, fcfs, n));
            lemma_final_state(tasks, rr, n);
        }
    }
}

/// Segment `seg` is a slice of the job of row `m`: it carries the job's
/// identifier and lies between the job's first start and its completion.
pub open spec fn slice_of(m: MetricsRow, seg: Segment) -> bool {
    &&& seg.label == Label::Job(m.id)
    &&& m.arrival <= m.arrival + m.response_time <= seg.start
    &&& seg.end <= m.completion_time
}

/// Every job runs for exactly its burst, and every segment in which a job
/// ran is a slice of one job of the table: no job runs before it arrives or
/// after it is completed.
pub proof fn law_each_job_runs_its_burst(jobs: Seq<Job>, policy: PolicyConfig, limits: Limits)
    requires
        verdict(jobs, policy, limits) is Ok,
    ensures
        ({
            let o = verdict(jobs, policy, limits)->Ok_0;
            &&& forall|i: int|
                0 <= i < o.metrics.len() ==> ticks_of(
                    o.trace,
                    Label::Job((#[trigger] o.metrics[i]).id),
                ) == o.metrics[i].burst
            &&& forall|k: int|
                0 <= k < o.trace.len() && (#[trigger] o.trace[k]).label is Job ==> exists|i: int|
                    0 <= i < o.metrics.len() && slice_of(#[trigger] o.metrics[i], o.trace[k])
        }),
{
    let n = lemma_verdict_ok(jobs, policy, limits);
    let tasks = arranged(jobs);
    let s = final_state(tasks, policy);
    let o = verdict(jobs, policy, limits)->Ok_0;
    lemma_finished_complete(tasks, s);
    lemma_after_accounted(tasks, policy, n);
    lemma_after_runs_within_life(tasks, policy, n);
    assert(o.metrics == rows_of(tasks, s.progress));
    assert forall|i: int| 0 <= i < o.metrics.len() implies ticks_of(
        o.trace,
        Label::Job((#[trigger] o.metrics[i]).id),
    ) == o.metrics[i].burst by {
        assert(completed(tasks[i], s.progress[i]));
        assert(job_inv(tasks[i], s.progress[i], s.now));
        assert(ticks_of(s.trace, Label::Job(tasks[i].id)) == tasks[i].burst
            - s.progress[i].remaining);
    }
    assert forall|k: int|
        0 <= k < o.trace.len() && (#[trigger] o.trace[k]).label is Job implies exists|i: int|
        0 <= i < o.metrics.len() && slice_of(#[trigger] o.metrics[i], o.trace[k]) by {
        let j = choose|j: int|
            0 <= j < tasks.len() && within_life(tasks[j], #[trigger] s.progress[j], s.trace[k]);
        assert(completed(tasks[j], s.progress[j]));
        assert(slice_of(o.metrics[j], o.trace[k]));
    }
}

/// The CPU idles only while no job is ready: during an idle segment every
/// job has yet to arrive or is already completed.
pub proof fn law_cpu_idles_only_when_no_job_is_ready(
    jobs: Seq<Job>,
    policy: PolicyConfig,
    limits: Limits,
)
    requires
        verdict(jobs, policy, limits) is Ok,
    ensures
        ({
            let o = verdict(jobs, policy, limits)->Ok_0;
            forall|k: int, i: int|
                0 <= k < o.trace.len() && 0 <= i < o.metrics.len() && (
                #[trigger] o.trace[k]).label is Idle ==> (#[trigger] o.metrics[i]).arrival
                    >= o.trace[k].end || o.metrics[i].completion_time <= o.trace[k].start
        }),
{
    let n = lemma_verdict_ok(jobs, policy, limits);
    let tasks = arranged(jobs);
    let s = final_state(tasks, policy);
    let o = verdict(jobs, policy, limits)->Ok_0;
    lemma_finished_complete(tasks, s);
    lemma_after_idles_only_when_free(tasks, policy, n);
    assert(o.metrics == rows_of(tasks, s.progress));
    assert forall|k: int, i: int|
        0 <= k < o.trace.len() && 0 <= i < o.metrics.len() && (
        #[trigger] o.trace[k]).label is Idle implies (#[trigger] o.metrics[i]).arrival
        >= o.trace[k].end || o.metrics[i].completion_time <= o.trace[k].start by {
        assert(out_of_the_way(tasks[i], s.progress[i], s.trace[k]));
        assert(completed(tasks[i], s.progress[i]));
    }
}

/// Under first come, first served and under shortest job next no job is
/// preempted: every job is completed one burst after its first start, so its
/// waiting time is its response time.
pub proof fn law_no_preemption_under_fcfs_and_sjn(
    jobs: Seq<Job>,
    policy: PolicyConfig,
    limits: Limits,
)
    requires
        policy is FCFS || policy is SJN,
        verdict(jobs, policy, limits) is Ok,
    ensures
        ({
            let table = verdict(jobs, policy, limits)->Ok_0.metrics;
            forall|k: int|
                0 <= k < table.len() ==> (#[trigger] table[k]).waiting_time
                    == table[k].response_time && table[k].completion_time == table[k].arrival
                    + table[k].response_time + table[k].burst
        }),
{
    let n = lemma_verdict_ok(jobs, policy, limits);
    let tasks = arranged(jobs);
    let s = final_state(tasks, policy);
    lemma_finished_complete(tasks, s);
    lemma_after_runs_in_one_piece(tasks, policy, n);
    let table = verdict(jobs, policy, limits)->Ok_0.metrics;
    assert(table == rows_of(tasks, s.progress));
    assert forall|k: int| 0 <= k < table.len() implies (#[trigger] table[k]).waiting_time
        == table[k].response_time && table[k].completion_time == table[k].arrival
        + table[k].response_time + table[k].burst by {
        assert(completed(tasks[k], s.progress[k]));
        assert(in_one_piece(tasks[k], s.progress[k]));
    }
}

/// A job set is an unordered collection: a job set that is accepted gives
/// the same verdict in any other order.
pub proof fn law_input_order_does_not_matter(
    jobs: Seq<Job>,
    reordered: Seq<Job>,
    policy: PolicyConfig,
    limits: Limits,
)
    requires
        jobs.to_multiset() == reordered.to_multiset(),
        rejection(jobs) is None,
    ensures
        verdict(jobs, policy, limits) == verdict(reordered, policy, limits),
{
    lemma_arranged_rearranged(jobs, reordered);
}

/// The latest arrival of a job set; zero for the empty set.
pub open spec fn latest_arrival(jobs: Seq<Job>) -> int
    decreases jobs.len(),
{
    if jobs.len() == 0 {
        0
    } else if jobs.last().arrival > latest_arrival(jobs.drop_last()) {
        jobs.last().arrival as int
    } else {
        latest_arrival(jobs.drop_last())
    }
}

proof fn lemma_latest_arrival(jobs: Seq<Job>, i: int)
    requires
        0 <= i < jobs.len(),
    ensures
        jobs[i].arrival <= latest_arrival(jobs),
        0 <= latest_arrival(jobs),
    decreases jobs.len(),
{
    if jobs.len() > 1 {
        if i < jobs.len() - 1 {
            lemma_latest_arrival(jobs.drop_last(), i);
        } else {
            lemma_latest_arrival(jobs.drop_last(), 0);
        }
    } else {
        assert(latest_arrival(jobs.drop_last()) == 0);
    }
}

/// Success is owed wherever the limits leave room: a job set that is
/// accepted runs to its end if the latest arrival plus the sum of the bursts
/// is within the last tick allowed and within the decisions allowed. The
/// makespan is then no more than that sum.
pub proof fn law_success_within_limits(jobs: Seq<Job>, policy: PolicyConfig, limits: Limits)
    requires
        policy.valid(),
        rejection(jobs) is None,
        latest_arrival(jobs) + total_job_burst(jobs) <= limits.tick_bound(),
        limits.max_steps is Some ==> latest_arrival(jobs) + total_job_burst(jobs)
            <= limits.max_steps->Some_0,
    ensures
        verdict(jobs, policy, limits) is Ok,
        verdict(jobs, policy, limits)->Ok_0.aggregate.makespan <= latest_arrival(jobs)
            + total_job_burst(jobs),
{
    let tasks = arranged(jobs);
    let room = latest_arrival(jobs) + total_job_burst(jobs);
    lemma_arranged_schedulable(jobs);
    lemma_total_burst_rearranged(tasks, tasks_of(jobs));
    assert forall|i: int| 0 <= i < jobs.len() implies (#[trigger] jobs[i]).defect() is None by {
        assert(!has_defect(jobs));
    }
    lemma_total_job_burst(jobs);
    if tasks.len() > 0 {
        let last = tasks.last();
        assert(tasks_of(jobs).contains(tasks[tasks.len() - 1]));
        let k = choose|k: int| 0 <= k < tasks_of(jobs).len() && tasks_of(jobs)[k] == last;
        assert(jobs[k].defect() is None);
        lemma_latest_arrival(jobs, k);
    }
    assert(last_arrival(tasks) + total_burst(tasks) <= room);
    assert forall|k: nat| (#[trigger] after(tasks, policy, k)).now <= room by {
        lemma_clock_bound(tasks, policy, k);
    }
    assert(!time_exceeded(tasks, policy, limits));
    if limits.max_steps is Some {
        let l = limits.max_steps->Some_0 as nat;
        if !finished(tasks, after(tasks, policy, l)) {
            lemma_after_inv(tasks, policy, l + 1);
            assert(after(tasks, policy, l + 1).now <= room);
        }
    }
    assert(!steps_exceeded(tasks, policy, limits));
    let n = lemma_verdict_ok(jobs, policy, limits);
    lemma_finished_complete(tasks, final_state(tasks, policy));
    assert(after(tasks, policy, n).now <= room);
}

/// An empty job set is no error: under any policy in range and any limits
/// it gives an empty trace, an empty metrics table and a makespan of zero.
pub proof fn law_empty_job_set(policy: PolicyConfig, limits: Limits)
    requires
        policy.valid(),
    ensures
        verdict(Seq::<Job>::empty(), policy, limits) is Ok,
        verdict(Seq::<Job>::empty(), policy, limits)->Ok_0.trace.len() == 0,
        verdict(Seq::<Job>::empty(), policy, limits)->Ok_0.metrics.len() == 0,
        verdict(Seq::<Job>::empty(), policy, limits)->Ok_0.aggregate.job_count == 0,
        verdict(Seq::<Job>::empty(), policy, limits)->Ok_0.aggregate.makespan == 0,
        verdict(Seq::<Job>::empty(), policy, limits)->Ok_0.aggregate.total_idle_ticks == 0,
{
    let jobs = Seq::<Job>::empty();
    assert(rejection(jobs) is None);
    law_success_within_limits(jobs, policy, limits);
    law_metrics_table(jobs, policy, limits);
    law_trace_well_formed(jobs, policy, limits);
    law_makespan_is_busy_plus_idle(jobs, policy, limits);
    let n = lemma_verdict_ok(jobs, policy, limits);
    let tasks = arranged(jobs);
    let s = final_state(tasks, policy);
    lemma_finished_complete(tasks, s);
    if s.trace.len() > 0 {
        lemma_segment_bounds(s.trace, 0);
        lemma_segment_bounds(s.trace, s.trace.len() - 1);
    }
}

} // verus!
