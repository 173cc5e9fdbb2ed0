//! The metrics aggregator: per-job figures from the completion data, and the
//! aggregate figures as exact fractions.

use vstd::prelude::*;
use crate::engine::{progress_of, RunState};
use crate::job::Task;
use crate::model::Progress;
use crate::trace::{
    idle_ticks, lemma_ticks_cover, segments, span_end, well_formed, Label, Segment,
    TraceSegment,
};

verus! {

/// The figures of one job.
#[derive(Clone, Copy, Debug, PartialEq, Eq)]
pub struct JobMetrics {
    pub id: u64,
    pub arrival: u64,
    pub burst: u64,
    /// The tick at which the job finished.
    pub completion_time: u64,
    /// Completion minus arrival.
    pub turnaround_time: u64,
    /// Turnaround minus burst.
    pub waiting_time: u64,
    /// First start minus arrival.
    pub response_time: u64,
}

/// The figures of one job over unbounded integers.
pub struct MetricsRow {
    pub id: u64,
    pub arrival: int,
    pub burst: int,
    pub completion_time: int,
    pub turnaround_time: int,
    pub waiting_time: int,
    pub response_time: int,
}

impl View for JobMetrics {
    type V = MetricsRow;

    open spec fn view(&self) -> MetricsRow {
        MetricsRow {
            id: self.id,
            arrival: self.arrival as int,
            burst: self.burst as int,
            completion_time: self.completion_time as int,
            turnaround_time: self.turnaround_time as int,
            waiting_time: self.waiting_time as int,
            response_time: self.response_time as int,
        }
    }
}

/// An exact fraction. The denominator is zero only where the quantity it
/// counts is zero: for an empty job set.
#[derive(Clone, Copy, Debug, PartialEq, Eq)]
pub struct Fraction {
    pub numerator: u128,
    pub denominator: u128,
}

/// A fraction over unbounded integers.
pub struct Ratio {
    pub numerator: int,
    pub denominator: int,
}

impl View for Fraction {
    type V = Ratio;

    open spec fn view(&self) -> Ratio {
        Ratio { numerator: self.numerator as int, denominator: self.denominator as int }
    }
}

/// The figures of a whole run.
#[derive(Clone, Copy, Debug, PartialEq, Eq)]
pub struct AggregateMetrics {
    pub job_count: usize,
    /// The completion time of the job that finished last.
    pub makespan: u64,
    pub total_idle_ticks: u64,
    pub average_turnaround: Fraction,
    pub average_waiting: Fraction,
    pub average_response: Fraction,
    /// Busy ticks over makespan.
    pub cpu_utilization: Fraction,
    /// Jobs over makespan.
    pub throughput: Fraction,
}

/// The figures of a whole run over unbounded integers.
pub struct Summary {
    pub job_count: int,
    pub makespan: int,
    pub total_idle_ticks: int,
    pub average_turnaround: Ratio,
    pub average_waiting: Ratio,
    pub average_response: Ratio,
    pub cpu_utilization: Ratio,
    pub throughput: Ratio,
}

impl View for AggregateMetrics {
    type V = Summary;

    open spec fn view(&self) -> Summary {
        Summary {
            job_count: self.job_count as int,
            makespan: self.makespan as int,
            total_idle_ticks: self.total_idle_ticks as int,
            average_turnaround: self.average_turnaround@,
            average_waiting: self.average_waiting@,
            average_response: self.average_response@,
            cpu_utilization: self.cpu_utilization@,
            throughput: self.throughput@,
        }
    }
}

/// The model of a metrics table.
pub open spec fn rows(table: Seq<JobMetrics>) -> Seq<MetricsRow> {
    table.map_values(|m: JobMetrics| m@)
}

/// A task has run to its end, and its times are consistent: it started no
/// earlier than it arrived and finished no earlier than start plus burst.
pub open spec fn completed(t: Task, p: Progress) -> bool {
    &&& p.first_start is Some
    &&& p.completion is Some
    &&& t.arrival <= p.first_start->Some_0
    &&& p.first_start->Some_0 + t.burst <= p.completion->Some_0
}

/// The figures of a completed task.
pub open spec fn row_of(t: Task, p: Progress) -> MetricsRow {
    let done = p.completion->Some_0;
    MetricsRow {
        id: t.id,
        arrival: t.arrival as int,
        burst: t.burst as int,
        completion_time: done,
        turnaround_time: done - t.arrival,
        waiting_time: done - t.arrival - t.burst,
        response_time: p.first_start->Some_0 - t.arrival,
    }
}

/// The metrics table: one row per task, in the order of the tasks.
pub open spec fn rows_of(tasks: Seq<Task>, progress: Seq<Progress>) -> Seq<MetricsRow> {
    Seq::new(tasks.len(), |j: int| row_of(tasks[j], progress[j]))
}

pub open spec fn sum_turnaround(table: Seq<MetricsRow>) -> int
    decreases table.len(),
{
    if table.len() == 0 {
        0
    } else {
        sum_turnaround(table.drop_last()) + table.last().turnaround_time
    }
}

pub open spec fn sum_waiting(table: Seq<MetricsRow>) -> int
    decreases table.len(),
{
    if table.len() == 0 {
        0
    } else {
        sum_waiting(table.drop_last()) + table.last().waiting_time
    }
}

pub open spec fn sum_response(table: Seq<MetricsRow>) -> int
    decreases table.len(),
{
    if table.len() == 0 {
        0
    } else {
        sum_response(table.drop_last()) + table.last().response_time
    }
}

/// The latest completion time in the table; zero for an empty table.
pub open spec fn latest(table: Seq<MetricsRow>) -> int
    decreases table.len(),
{
    if table.len() == 0 {
        0
    } else if latest(table.drop_last()) >= table.last().completion_time {
        latest(table.drop_last())
    } else {
        table.last().completion_time
    }
}

/// The aggregate figures of a metrics table and the trace it belongs to.
/// Averages are sums over the number of jobs; utilization is busy time over
/// makespan; throughput is jobs over makespan.
pub open spec fn summary(table: Seq<MetricsRow>, trace: Seq<Segment>) -> Summary {
    let n = table.len() as int;
    let makespan = latest(table);
    let idle = idle_ticks(trace);
    Summary {
        job_count: n,
        makespan,
        total_idle_ticks: idle,
        average_turnaround: Ratio { numerator: sum_turnaround(table), denominator: n },
        average_waiting: Ratio { numerator: sum_waiting(table), denominator: n },
        average_response: Ratio { numerator: sum_response(table), denominator: n },
        cpu_utilization: Ratio { numerator: makespan - idle, denominator: makespan },
        throughput: Ratio { numerator: n, denominator: makespan },
    }
}

/// The latest completion is an upper bound of all completions, and it is the
/// completion of a row unless the table is empty.
pub proof fn lemma_latest(table: Seq<MetricsRow>)
    requires
        forall|i: int| 0 <= i < table.len() ==> (#[trigger] table[i]).completion_time >= 0,
    ensures
        forall|i: int|
            0 <= i < table.len() ==> (#[trigger] table[i]).completion_time <= latest(table),
        table.len() > 0 ==> exists|i: int|
            0 <= i < table.len() && (#[trigger] table[i]).completion_time == latest(table),
    decreases table.len(),
{
    if table.len() > 0 {
        let rest = table.drop_last();
        assert forall|i: int| 0 <= i < rest.len() implies (#[trigger] rest[i]).completion_time
            >= 0 by {
            assert(rest[i] == table[i]);
        }
        lemma_latest(rest);
        assert(table[table.len() - 1].completion_time >= 0);
        assert forall|i: int| 0 <= i < table.len() implies (#[trigger] table[i]).completion_time
            <= latest(table) by {
            if i < rest.len() {
                assert(rest[i] == table[i]);
            }
        }
        if rest.len() > 0 && latest(rest) >= table.last().completion_time {
            let i = choose|i: int|
                0 <= i < rest.len() && (#[trigger] rest[i]).completion_time == latest(rest);
            assert(table[i] == rest[i]);
        } else {
            assert(table[table.len() - 1].completion_time == latest(table));
        }
    }
}

/// A table whose completions are bounded by `m`, one of them reaching it,
/// has `m` as its latest completion.
pub proof fn lemma_latest_is(table: Seq<MetricsRow>, m: int)
    requires
        forall|i: int| 0 <= i < table.len() ==> 0 <= (#[trigger] table[i]).completion_time <= m,
        exists|i: int| 0 <= i < table.len() && (#[trigger] table[i]).completion_time == m,
    ensures
        latest(table) == m,
{
    lemma_latest(table);
    let i = choose|i: int| 0 <= i < table.len() && (#[trigger] table[i]).completion_time == m;
    assert(table[i].completion_time <= latest(table));
    let k = choose|k: int|
        0 <= k < table.len() && (#[trigger] table[k]).completion_time == latest(table);
    assert(table[k].completion_time <= m);
}

/// The figures of one completed task.
pub fn job_metrics(task: &Task, state: &RunState) -> (m: JobMetrics)
    requires
        completed(*task, state@),
    ensures
        m@ == row_of(*task, state@),
        m.waiting_time + m.burst == m.turnaround_time,
        m.turnaround_time + m.arrival == m.completion_time,
{
    let done: u64 = state.completion.unwrap();
    let first: u64 = state.first_start.unwrap();
    let turnaround: u64 = done - task.arrival;
    JobMetrics {
        id: task.id,
        arrival: task.arrival,
        burst: task.burst,
        completion_time: done,
        turnaround_time: turnaround,
        waiting_time: turnaround - task.burst,
        response_time: first - task.arrival,
    }
}

/// The metrics table of a finished run: one row per task, in the order of
/// the tasks.
pub fn tabulate(tasks: &Vec<Task>, run: &Vec<RunState>) -> (table: Vec<JobMetrics>)
    requires
        tasks@.len() == run@.len(),
        forall|j: int| 0 <= j < tasks@.len() ==> completed(tasks@[j], (#[trigger] run@[j])@),
    ensures
        rows(table@) == rows_of(tasks@, progress_of(run@)),
{
    let n: usize = tasks.len();
    let mut table: Vec<JobMetrics> = Vec::new();
    let mut j: usize = 0;
    while j < n
        invariant
            j <= n,
            n == tasks@.len(),
            n == run@.len(),
            table@.len() == j,
            forall|k: int| 0 <= k < n ==> completed(tasks@[k], (#[trigger] run@[k])@),
            forall|k: int| 0 <= k < j ==> (#[trigger] table@[k])@ == row_of(tasks@[k], run@[k]@),
        decreases n - j,
    {
        assert(completed(tasks@[j as int], run@[j as int]@));
        table.push(job_metrics(&tasks[j], &run[j]));
        j += 1;
    }
    assert(rows(table@) =~= rows_of(tasks@, progress_of(run@)));
    table
}

/// The aggregate figures of a metrics table and the trace it belongs to.
pub fn aggregate(table: &Vec<JobMetrics>, trace: &Vec<TraceSegment>) -> (a: AggregateMetrics)
    requires
        well_formed(segments(trace@)),
        span_end(segments(trace@)) == latest(rows(table@)),
    ensures
        a@ == summary(rows(table@), segments(trace@)),
        a.cpu_utilization.numerator <= a.cpu_utilization.denominator,
{
    let ghost model = rows(table@);
    let ghost segs = segments(trace@);
    let n: usize = table.len();
    let mut turnaround: u128 = 0;
    let mut waiting: u128 = 0;
    let mut response: u128 = 0;
    let mut makespan: u64 = 0;
    let mut i: usize = 0;
    assert(model.take(0) =~= Seq::<MetricsRow>::empty());
    while i < n
        invariant
            i <= n,
            n == table@.len(),
            model == rows(table@),
            turnaround == sum_turnaround(model.take(i as int)),
            waiting == sum_waiting(model.take(i as int)),
            response == sum_response(model.take(i as int)),
            makespan == latest(model.take(i as int)),
            turnaround <= i * 0xffff_ffff_ffff_ffff,
            waiting <= i * 0xffff_ffff_ffff_ffff,
            response <= i * 0xffff_ffff_ffff_ffff,
        decreases n - i,
    {
        let m = table[i];
        assert(model.take(i + 1).drop_last() =~= model.take(i as int));
        assert(model.take(i + 1).last() == m@);
        turnaround = turnaround + m.turnaround_time as u128;
        waiting = waiting + m.waiting_time as u128;
        response = response + m.response_time as u128;
        if m.completion_time > makespan {
            makespan = m.completion_time;
        }
        i += 1;
    }
    assert(model.take(n as int) =~= model);
    let k: usize = trace.len();
    let mut idle: u64 = 0;
    let mut j: usize = 0;
    assert(segs.take(0) =~= Seq::<Segment>::empty());
    while j < k
        invariant
            j <= k,
            k == trace@.len(),
            segs == segments(trace@),
            well_formed(segs),
            idle == idle_ticks(segs.take(j as int)),
            idle <= span_end(segs.take(j as int)),
            span_end(segs.take(j as int)) <= u64::MAX,
        decreases k - j,
    {
        let seg = trace[j];
        proof {
            let next = segs.take(j + 1);
            assert(next.drop_last() =~= segs.take(j as int));
            assert(next.last() == seg@);
            assert(segs[j as int].start < segs[j as int].end);
            if j > 0 {
                assert(segs[j - 1].end == segs[j as int].start);
                assert(segs.take(j as int).last() == segs[j - 1]);
            }
        }
        match seg.label {
            Label::Idle => {
                idle = idle + (seg.end - seg.start);
            },
            Label::Job(_) => {},
        }
        j += 1;
    }
    proof {
        assert(segs.take(k as int) =~= segs);
        lemma_ticks_cover(segs);
    }
    AggregateMetrics {
        job_count: n,
        makespan,
        total_idle_ticks: idle,
        average_turnaround: Fraction { numerator: turnaround, denominator: n as u128 },
        average_waiting: Fraction { numerator: waiting, denominator: n as u128 },
        average_response: Fraction { numerator: response, denominator: n as u128 },
        cpu_utilization: Fraction {
            numerator: (makespan - idle) as u128,
            denominator: makespan as u128,
        },
        throughput: Fraction { numerator: n as u128, denominator: makespan as u128 },
    }
}

} // verus!
