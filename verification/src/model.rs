//! The scheduler as a transition system over unbounded ticks.
//!
//! A state holds the clock, how far each task has come, the ready queue and
//! the trace so far. `step` takes one scheduling decision: it dispatches the
//! job that the policy names, or lets the CPU idle until the next arrival.
//! `after` iterates it from `start`. The invariant `inv` holds of every state
//! reached this way.

use vstd::prelude::*;
use crate::intake::schedulable;
use crate::job::{PolicyConfig, Task};
use crate::ready::{choice, is_choice, lemma_choice_exists, ReadyEntry};
use crate::trace::{
    append_segment, lemma_append_well_formed, span_end, well_formed, Label, Segment,
};

verus! {

/// How far one task has come.
pub struct Progress {
    /// Ticks of burst still to execute.
    pub remaining: int,
    /// The tick at which the task first got the CPU.
    pub first_start: Option<int>,
    /// The tick at which `remaining` reached zero.
    pub completion: Option<int>,
    /// The tick at which the task last entered the ready queue.
    pub enqueue_time: int,
}

/// A state of the scheduler. Tasks are named by their position in the
/// arranged task list.
#[verifier::ext_equal]
pub struct Sched {
    /// The current tick.
    pub now: int,
    /// The tasks before this position have entered the ready queue.
    pub arrived: int,
    pub progress: Seq<Progress>,
    /// The ready queue, head first.
    pub queue: Seq<int>,
    pub trace: Seq<Segment>,
}

/// The progress of a task that has not entered the queue yet.
pub open spec fn untouched(t: Task) -> Progress {
    Progress { remaining: t.burst as int, first_start: None, completion: None, enqueue_time: 0 }
}

/// The state before anything has happened, at tick zero.
pub open spec fn blank(tasks: Seq<Task>) -> Sched {
    Sched {
        now: 0,
        arrived: 0,
        progress: Seq::new(tasks.len(), |j: int| untouched(tasks[j])),
        queue: Seq::empty(),
        trace: Seq::empty(),
    }
}

/// The first position at or after `from` whose task has not arrived by `now`.
pub open spec fn due(tasks: Seq<Task>, from: int, now: int) -> int
    decreases tasks.len() - from,
{
    if 0 <= from < tasks.len() && tasks[from].arrival <= now {
        due(tasks, from + 1, now)
    } else {
        from
    }
}

/// The tasks from `s.arrived` up to `upto` enter the queue at `s.now`, in
/// order of their position.
pub open spec fn enqueue_range(s: Sched, upto: int) -> Sched {
    Sched {
        arrived: upto,
        progress: Seq::new(
            s.progress.len(),
            |j: int|
                if s.arrived <= j < upto {
                    Progress { enqueue_time: s.now, ..s.progress[j] }
                } else {
                    s.progress[j]
                },
        ),
        queue: s.queue + Seq::new((upto - s.arrived) as nat, |k: int| s.arrived + k),
        ..s
    }
}

/// Every task that has arrived by `s.now` enters the queue.
pub open spec fn enqueue_arrivals(tasks: Seq<Task>, s: Sched) -> Sched {
    enqueue_range(s, due(tasks, s.arrived, s.now))
}

/// A task as the ready set sees it.
pub open spec fn entry_of(t: Task, p: Progress) -> ReadyEntry {
    ReadyEntry {
        id: t.id,
        arrival: t.arrival,
        remaining: p.remaining as u64,
        enqueue_time: p.enqueue_time as u64,
    }
}

/// The ready queue as the ready set holds it.
pub open spec fn entries(tasks: Seq<Task>, s: Sched) -> Seq<ReadyEntry> {
    Seq::new(s.queue.len(), |k: int| entry_of(tasks[s.queue[k]], s.progress[s.queue[k]]))
}

/// The queue position of the job that runs next.
pub open spec fn chosen(tasks: Seq<Task>, policy: PolicyConfig, s: Sched) -> int {
    choice(entries(tasks, s), policy)
}

/// The task that runs next.
pub open spec fn runner(tasks: Seq<Task>, policy: PolicyConfig, s: Sched) -> int {
    s.queue[chosen(tasks, policy, s)]
}

/// The next interruption point: the tick at which the slice of task `j`,
/// dispatched at `s.now`, ends. That is the completion of the task, or an
/// earlier event where the policy lets one interrupt: the next arrival under
/// shortest remaining time, the expiry of the quantum under round robin.
pub open spec fn interruption(tasks: Seq<Task>, policy: PolicyConfig, s: Sched, j: int) -> int {
    let done = s.now + s.progress[j].remaining;
    match policy {
        PolicyConfig::FCFS => done,
        PolicyConfig::SJN => done,
        PolicyConfig::SRT => if s.arrived < tasks.len() && tasks[s.arrived].arrival < done {
            tasks[s.arrived].arrival as int
        } else {
            done
        },
        PolicyConfig::RoundRobin { quantum } => if quantum < s.progress[j].remaining {
            s.now + quantum
        } else {
            done
        },
    }
}

/// The chosen job runs its slice: the clock moves to the end of the slice,
/// the trace grows, and a job that has nothing left leaves the queue with
/// its completion recorded.
pub open spec fn ran(tasks: Seq<Task>, policy: PolicyConfig, s: Sched) -> Sched {
    let pos = chosen(tasks, policy, s);
    let j = s.queue[pos];
    let end = interruption(tasks, policy, s, j);
    let p = s.progress[j];
    let left = p.remaining - (end - s.now);
    Sched {
        now: end,
        progress: s.progress.update(
            j,
            Progress {
                remaining: left,
                first_start: if p.first_start is None {
                    Some(s.now)
                } else {
                    p.first_start
                },
                completion: if left == 0 {
                    Some(end)
                } else {
                    None
                },
                ..p
            },
        ),
        queue: if left == 0 {
            s.queue.remove(pos)
        } else {
            s.queue
        },
        trace: append_segment(
            s.trace,
            Segment { start: s.now, end, label: Label::Job(tasks[j].id) },
        ),
        ..s
    }
}

/// The job at queue position `pos` goes to the tail, entering anew at `s.now`.
pub open spec fn rotated(s: Sched, pos: int) -> Sched {
    let j = s.queue[pos];
    Sched {
        progress: s.progress.update(j, Progress { enqueue_time: s.now, ..s.progress[j] }),
        queue: s.queue.remove(pos).push(j),
        ..s
    }
}

/// The CPU idles until the next arrival.
pub open spec fn idled(tasks: Seq<Task>, s: Sched) -> Sched {
    let t = tasks[s.arrived].arrival as int;
    Sched {
        now: t,
        trace: append_segment(s.trace, Segment { start: s.now, end: t, label: Label::Idle }),
        ..s
    }
}

/// Nothing is ready and nothing is still to arrive.
pub open spec fn finished(tasks: Seq<Task>, s: Sched) -> bool {
    s.queue.len() == 0 && s.arrived >= tasks.len()
}

/// One dispatch: the chosen job runs its slice; under round robin a job that
/// is not finished then goes to the tail of the queue; and then the jobs
/// that arrived by the end of the slice enter the queue, behind it.
pub open spec fn dispatched(tasks: Seq<Task>, policy: PolicyConfig, s: Sched) -> Sched {
    let pos = chosen(tasks, policy, s);
    let j = s.queue[pos];
    let r = ran(tasks, policy, s);
    if policy is RoundRobin && r.progress[j].remaining > 0 {
        enqueue_arrivals(tasks, rotated(r, pos))
    } else {
        enqueue_arrivals(tasks, r)
    }
}

/// One scheduling decision. A finished state stays as it is.
pub open spec fn step(tasks: Seq<Task>, policy: PolicyConfig, s: Sched) -> Sched {
    if s.queue.len() > 0 {
        dispatched(tasks, policy, s)
    } else if s.arrived < tasks.len() {
        enqueue_arrivals(tasks, idled(tasks, s))
    } else {
        s
    }
}

/// The state at tick zero, with the jobs that arrive at zero in the queue.
pub open spec fn start(tasks: Seq<Task>) -> Sched {
    enqueue_arrivals(tasks, blank(tasks))
}

/// The state after `n` scheduling decisions.
pub open spec fn after(tasks: Seq<Task>, policy: PolicyConfig, n: nat) -> Sched
    decreases n,
{
    if n == 0 {
        start(tasks)
    } else {
        step(tasks, policy, after(tasks, policy, (n - 1) as nat))
    }
}

/// What holds of one task's progress at tick `now`.
pub open spec fn job_inv(t: Task, p: Progress, now: int) -> bool {
    &&& 0 <= p.remaining <= t.burst
    &&& 0 <= p.enqueue_time <= now
    &&& (p.completion is Some <==> p.remaining == 0)
    &&& (p.remaining < t.burst <==> p.first_start is Some)
    &&& (p.first_start is Some ==> t.arrival <= p.first_start->Some_0 && p.first_start->Some_0
        + (t.burst - p.remaining) <= now)
    &&& (p.completion is Some ==> p.first_start is Some && p.first_start->Some_0 + t.burst
        <= p.completion->Some_0 && p.completion->Some_0 <= now)
}

/// The invariant but for one part: tasks that have arrived by `s.now` may
/// still be waiting to enter the queue.
pub open spec fn inv_core(tasks: Seq<Task>, s: Sched) -> bool {
    &&& s.progress.len() == tasks.len()
    &&& 0 <= s.arrived <= tasks.len()
    &&& 0 <= s.now
    &&& forall|j: int| 0 <= j < s.arrived ==> (#[trigger] tasks[j]).arrival <= s.now
    &&& forall|k: int|
        0 <= k < s.queue.len() ==> 0 <= #[trigger] s.queue[k] < s.arrived
            && s.progress[s.queue[k]].remaining >= 1
    &&& forall|a: int, b: int|
        0 <= a < b < s.queue.len() ==> #[trigger] s.queue[a] != #[trigger] s.queue[b]
    &&& forall|j: int|
        0 <= j < s.arrived && (#[trigger] s.progress[j]).remaining >= 1 ==> s.queue.contains(j)
    &&& forall|j: int| 0 <= j < tasks.len() ==> job_inv(tasks[j], #[trigger] s.progress[j], s.now)
    &&& forall|j: int|
        s.arrived <= j < tasks.len() ==> #[trigger] s.progress[j] == untouched(tasks[j])
    &&& well_formed(s.trace)
    &&& span_end(s.trace) == s.now
}

/// The invariant of the scheduler: the queue holds exactly the tasks that
/// have arrived and have something left to run, each once; every task's
/// progress is consistent with the clock; the trace is well formed and ends
/// at the clock.
pub open spec fn inv(tasks: Seq<Task>, s: Sched) -> bool {
    &&& inv_core(tasks, s)
    &&& forall|j: int| s.arrived <= j < tasks.len() ==> (#[trigger] tasks[j]).arrival > s.now
}

pub proof fn lemma_due(tasks: Seq<Task>, from: int, now: int)
    requires
        0 <= from <= tasks.len(),
    ensures
        from <= due(tasks, from, now) <= tasks.len(),
        forall|j: int| from <= j < due(tasks, from, now) ==> (#[trigger] tasks[j]).arrival <= now,
        due(tasks, from, now) < tasks.len() ==> tasks[due(tasks, from, now)].arrival > now,
    decreases tasks.len() - from,
{
    if from < tasks.len() && tasks[from].arrival <= now {
        lemma_due(tasks, from + 1, now);
    }
}

/// Letting arrived tasks enter the queue keeps the core of the invariant.
pub proof fn lemma_enqueue_range_core(tasks: Seq<Task>, s: Sched, upto: int)
    requires
        schedulable(tasks),
        inv_core(tasks, s),
        s.arrived <= upto <= tasks.len(),
        forall|j: int| s.arrived <= j < upto ==> (#[trigger] tasks[j]).arrival <= s.now,
    ensures
        inv_core(tasks, enqueue_range(s, upto)),
{
    let r = enqueue_range(s, upto);
    let old_len = s.queue.len() as int;
    assert forall|j: int| 0 <= j < r.arrived implies (#[trigger] tasks[j]).arrival <= r.now by {}
    assert forall|k: int| 0 <= k < r.queue.len() implies 0 <= #[trigger] r.queue[k] < r.arrived
        && r.progress[r.queue[k]].remaining >= 1 by {
        if k < old_len {
            assert(r.queue[k] == s.queue[k]);
        } else {
            let j = s.arrived + (k - old_len);
            assert(r.queue[k] == j);
            assert(s.progress[j] == untouched(tasks[j]));
            assert(tasks[j].burst >= 1);
        }
    }
    assert forall|a: int, b: int| 0 <= a < b < r.queue.len() implies #[trigger] r.queue[a]
        != #[trigger] r.queue[b] by {
        if a < old_len {
            assert(r.queue[a] == s.queue[a]);
        }
        if b < old_len {
            assert(r.queue[b] == s.queue[b]);
        }
    }
    assert forall|j: int|
        0 <= j < r.arrived && (#[trigger] r.progress[j]).remaining >= 1 implies r.queue.contains(
        j,
    ) by {
        if j < s.arrived {
            assert(s.progress[j].remaining >= 1);
            assert(s.queue.contains(j));
            let k = choose|k: int| 0 <= k < s.queue.len() && s.queue[k] == j;
            assert(r.queue[k] == j);
        } else {
            assert(r.queue[old_len + (j - s.arrived)] == j);
        }
    }
    assert forall|j: int| 0 <= j < tasks.len() implies job_inv(
        tasks[j],
        #[trigger] r.progress[j],
        r.now,
    ) by {
        assert(job_inv(tasks[j], s.progress[j], s.now));
        if s.arrived <= j < upto {
            assert(s.progress[j] == untouched(tasks[j]));
        }
    }
    assert forall|j: int| r.arrived <= j < tasks.len() implies #[trigger] r.progress[j]
        == untouched(tasks[j]) by {
        assert(s.progress[j] == untouched(tasks[j]));
    }
}

/// Letting every arrived task enter the queue completes the invariant.
pub proof fn lemma_enqueue_inv(tasks: Seq<Task>, s: Sched)
    requires
        schedulable(tasks),
        inv_core(tasks, s),
    ensures
        inv(tasks, enqueue_arrivals(tasks, s)),
        enqueue_arrivals(tasks, s).now == s.now,
        enqueue_arrivals(tasks, s).trace == s.trace,
{
    let upto = due(tasks, s.arrived, s.now);
    let r = enqueue_arrivals(tasks, s);
    lemma_due(tasks, s.arrived, s.now);
    lemma_enqueue_range_core(tasks, s, upto);
    assert forall|j: int| r.arrived <= j < tasks.len() implies (#[trigger] tasks[j]).arrival
        > r.now by {
        if upto < j {
            assert(tasks[upto].arrival <= tasks[j].arrival);
        }
    }
}

/// What a dispatch starts from: the chosen position lies in the queue, and
/// the slice of the chosen job is non-empty and no longer than what the job
/// has left.
pub proof fn lemma_slice(tasks: Seq<Task>, policy: PolicyConfig, s: Sched)
    requires
        schedulable(tasks),
        policy.valid(),
        inv(tasks, s),
        s.queue.len() > 0,
    ensures
        is_choice(entries(tasks, s), policy, chosen(tasks, policy, s)),
        0 <= chosen(tasks, policy, s) < s.queue.len(),
        0 <= runner(tasks, policy, s) < s.arrived,
        s.now < interruption(tasks, policy, s, runner(tasks, policy, s)) <= s.now
            + s.progress[runner(tasks, policy, s)].remaining,
{
    lemma_choice_exists(entries(tasks, s), policy);
    let pos = chosen(tasks, policy, s);
    let j = s.queue[pos];
    assert(0 <= j < s.arrived && s.progress[j].remaining >= 1);
    if s.arrived < tasks.len() {
        assert(tasks[s.arrived].arrival > s.now);
    }
}

/// Running a slice keeps the core of the invariant and moves the clock on.
pub proof fn lemma_ran_inv(tasks: Seq<Task>, policy: PolicyConfig, s: Sched)
    requires
        schedulable(tasks),
        policy.valid(),
        inv(tasks, s),
        s.queue.len() > 0,
    ensures
        inv_core(tasks, ran(tasks, policy, s)),
        ran(tasks, policy, s).now > s.now,
        ran(tasks, policy, s).arrived == s.arrived,
{
    lemma_slice(tasks, policy, s);
    let pos = chosen(tasks, policy, s);
    let j = s.queue[pos];
    let end = interruption(tasks, policy, s, j);
    let r = ran(tasks, policy, s);
    let left = s.progress[j].remaining - (end - s.now);
    assert(job_inv(tasks[j], s.progress[j], s.now));
    assert(tasks[j].arrival <= s.now);
    lemma_append_well_formed(
        s.trace,
        Segment { start: s.now, end, label: Label::Job(tasks[j].id) },
    );
    assert forall|i: int| 0 <= i < tasks.len() implies job_inv(
        tasks[i],
        #[trigger] r.progress[i],
        r.now,
    ) by {
        assert(job_inv(tasks[i], s.progress[i], s.now));
    }
    assert forall|i: int| r.arrived <= i < tasks.len() implies #[trigger] r.progress[i]
        == untouched(tasks[i]) by {
        assert(s.progress[i] == untouched(tasks[i]));
    }
    assert forall|i: int| 0 <= i < r.arrived implies (#[trigger] tasks[i]).arrival <= r.now by {}
    if left == 0 {
        assert forall|k: int| 0 <= k < r.queue.len() implies 0 <= #[trigger] r.queue[k]
            < r.arrived && r.progress[r.queue[k]].remaining >= 1 by {
            let k0 = if k < pos { k } else { k + 1 };
            assert(r.queue[k] == s.queue[k0]);
            if k0 < pos {
                assert(s.queue[k0] != s.queue[pos]);
            } else {
                assert(s.queue[pos] != s.queue[k0]);
            }
        }
        assert forall|a: int, b: int| 0 <= a < b < r.queue.len() implies #[trigger] r.queue[a]
            != #[trigger] r.queue[b] by {
            let a0 = if a < pos { a } else { a + 1 };
            let b0 = if b < pos { b } else { b + 1 };
            assert(r.queue[a] == s.queue[a0] && r.queue[b] == s.queue[b0]);
        }
        assert forall|i: int|
            0 <= i < r.arrived && (#[trigger] r.progress[i]).remaining
                >= 1 implies r.queue.contains(i) by {
            assert(i != j);
            assert(s.progress[i].remaining >= 1);
            assert(s.queue.contains(i));
            let k = choose|k: int| 0 <= k < s.queue.len() && s.queue[k] == i;
            let k1 = if k < pos { k } else { k - 1 };
            assert(r.queue[k1] == i);
        }
    } else {
        assert forall|k: int| 0 <= k < r.queue.len() implies 0 <= #[trigger] r.queue[k]
            < r.arrived && r.progress[r.queue[k]].remaining >= 1 by {
            assert(0 <= s.queue[k] < s.arrived && s.progress[s.queue[k]].remaining >= 1);
        }
        assert forall|i: int|
            0 <= i < r.arrived && (#[trigger] r.progress[i]).remaining
                >= 1 implies r.queue.contains(i) by {
            if i != j {
                assert(s.progress[i].remaining >= 1);
            } else {
                assert(s.queue[pos] == j);
            }
        }
    }
}

/// Sending a queued job to the tail keeps the core of the invariant.
pub proof fn lemma_rotated_inv(tasks: Seq<Task>, s: Sched, pos: int)
    requires
        inv_core(tasks, s),
        0 <= pos < s.queue.len(),
    ensures
        inv_core(tasks, rotated(s, pos)),
        rotated(s, pos).now == s.now,
        rotated(s, pos).trace == s.trace,
{
    let j = s.queue[pos];
    let r = rotated(s, pos);
    let last = r.queue.len() - 1;
    assert(0 <= j < s.arrived && s.progress[j].remaining >= 1);
    assert forall|k: int| 0 <= k < r.queue.len() implies 0 <= #[trigger] r.queue[k] < r.arrived
        && r.progress[r.queue[k]].remaining >= 1 by {
        if k < last {
            let k0 = if k < pos { k } else { k + 1 };
            assert(r.queue[k] == s.queue[k0]);
        } else {
            assert(r.queue[k] == j);
        }
    }
    assert forall|a: int, b: int| 0 <= a < b < r.queue.len() implies #[trigger] r.queue[a]
        != #[trigger] r.queue[b] by {
        let a0 = if a < pos { a } else { a + 1 };
        assert(r.queue[a] == s.queue[a0]);
        if b < last {
            let b0 = if b < pos { b } else { b + 1 };
            assert(r.queue[b] == s.queue[b0]);
        } else {
            assert(r.queue[b] == s.queue[pos]);
            if a0 < pos {
                assert(s.queue[a0] != s.queue[pos]);
            } else {
                assert(s.queue[pos] != s.queue[a0]);
            }
        }
    }
    assert forall|i: int|
        0 <= i < r.arrived && (#[trigger] r.progress[i]).remaining >= 1 implies r.queue.contains(
        i,
    ) by {
        if i == j {
            assert(r.queue[last] == j);
        } else {
            assert(s.progress[i].remaining >= 1);
            assert(s.queue.contains(i));
            let k = choose|k: int| 0 <= k < s.queue.len() && s.queue[k] == i;
            let k1 = if k < pos { k } else { k - 1 };
            assert(r.queue[k1] == i);
        }
    }
    assert forall|i: int| 0 <= i < tasks.len() implies job_inv(
        tasks[i],
        #[trigger] r.progress[i],
        r.now,
    ) by {
        assert(job_inv(tasks[i], s.progress[i], s.now));
    }
    assert forall|i: int| r.arrived <= i < tasks.len() implies #[trigger] r.progress[i]
        == untouched(tasks[i]) by {
        assert(s.progress[i] == untouched(tasks[i]));
    }
}

/// Idling until the next arrival keeps the core of the invariant and moves
/// the clock on.
pub proof fn lemma_idled_inv(tasks: Seq<Task>, s: Sched)
    requires
        inv(tasks, s),
        s.queue.len() == 0,
        s.arrived < tasks.len(),
    ensures
        inv_core(tasks, idled(tasks, s)),
        idled(tasks, s).now > s.now,
{
    let r = idled(tasks, s);
    assert(tasks[s.arrived].arrival > s.now);
    lemma_append_well_formed(s.trace, Segment { start: s.now, end: r.now, label: Label::Idle });
    assert forall|i: int| 0 <= i < tasks.len() implies job_inv(
        tasks[i],
        #[trigger] r.progress[i],
        r.now,
    ) by {
        assert(job_inv(tasks[i], s.progress[i], s.now));
    }
    assert forall|i: int| 0 <= i < r.arrived implies (#[trigger] tasks[i]).arrival <= r.now by {}
}

/// A scheduling decision keeps the invariant; unless the run is finished it
/// moves the clock on by at least one tick.
pub proof fn lemma_step_inv(tasks: Seq<Task>, policy: PolicyConfig, s: Sched)
    requires
        schedulable(tasks),
        policy.valid(),
        inv(tasks, s),
    ensures
        inv(tasks, step(tasks, policy, s)),
        finished(tasks, s) ==> step(tasks, policy, s) == s,
        !finished(tasks, s) ==> step(tasks, policy, s).now > s.now,
{
    if s.queue.len() > 0 {
        lemma_slice(tasks, policy, s);
        lemma_ran_inv(tasks, policy, s);
        let pos = chosen(tasks, policy, s);
        let j = s.queue[pos];
        let r = ran(tasks, policy, s);
        if policy is RoundRobin && r.progress[j].remaining > 0 {
            lemma_rotated_inv(tasks, r, pos);
            lemma_enqueue_inv(tasks, rotated(r, pos));
        } else {
            lemma_enqueue_inv(tasks, r);
        }
    } else if s.arrived < tasks.len() {
        lemma_idled_inv(tasks, s);
        lemma_enqueue_inv(tasks, idled(tasks, s));
    }
}

/// The invariant holds at the start.
pub proof fn lemma_start_inv(tasks: Seq<Task>)
    requires
        schedulable(tasks),
    ensures
        inv_core(tasks, blank(tasks)),
        inv(tasks, start(tasks)),
        start(tasks).now == 0,
{
    lemma_enqueue_inv(tasks, blank(tasks));
}

/// The invariant holds after any number of decisions, and the clock has
/// moved on by at least one tick for each decision taken before the run
/// finished.
pub proof fn lemma_after_inv(tasks: Seq<Task>, policy: PolicyConfig, n: nat)
    requires
        schedulable(tasks),
        policy.valid(),
    ensures
        inv(tasks, after(tasks, policy, n)),
        n > 0 && !finished(tasks, after(tasks, policy, (n - 1) as nat)) ==> after(
            tasks,
            policy,
            n,
        ).now >= n,
    decreases n,
{
    if n == 0 {
        lemma_start_inv(tasks);
    } else {
        let m = (n - 1) as nat;
        lemma_after_inv(tasks, policy, m);
        lemma_step_inv(tasks, policy, after(tasks, policy, m));
        if m > 0 && !finished(tasks, after(tasks, policy, m)) {
            let k = (m - 1) as nat;
            if finished(tasks, after(tasks, policy, k)) {
                lemma_after_inv(tasks, policy, k);
                lemma_step_inv(tasks, policy, after(tasks, policy, k));
            }
        }
    }
}

/// The clock of a finished run stands at the completion of some task, or at
/// zero where there are no tasks.
pub open spec fn settled(tasks: Seq<Task>, s: Sched) -> bool {
    finished(tasks, s) ==> (tasks.len() == 0 && s.now == 0) || exists|j: int|
        0 <= j < tasks.len() && (#[trigger] s.progress[j]).completion == Some(s.now)
}

pub proof fn lemma_step_settled(tasks: Seq<Task>, policy: PolicyConfig, s: Sched)
    requires
        schedulable(tasks),
        policy.valid(),
        inv(tasks, s),
        settled(tasks, s),
    ensures
        settled(tasks, step(tasks, policy, s)),
{
    if s.queue.len() > 0 {
        lemma_slice(tasks, policy, s);
        lemma_ran_inv(tasks, policy, s);
        let pos = chosen(tasks, policy, s);
        let j = s.queue[pos];
        let r = ran(tasks, policy, s);
        let next = step(tasks, policy, s);
        if r.progress[j].remaining == 0 {
            lemma_enqueue_inv(tasks, r);
            lemma_due(tasks, r.arrived, r.now);
            assert(next.progress[j] == r.progress[j]);
            assert(next.progress[j].completion == Some(next.now));
        } else if policy is RoundRobin {
            lemma_rotated_inv(tasks, r, pos);
            lemma_due(tasks, r.arrived, r.now);
            assert(rotated(r, pos).queue.len() > 0);
            assert(next.queue.len() > 0);
        } else {
            lemma_due(tasks, r.arrived, r.now);
            assert(r.queue == s.queue);
            assert(next.queue.len() > 0);
        }
    } else if s.arrived < tasks.len() {
        let r0 = idled(tasks, s);
        lemma_due(tasks, s.arrived + 1, r0.now);
        assert(step(tasks, policy, s).queue.len() > 0);
    }
}

/// After any number of decisions the state is settled.
pub proof fn lemma_after_settled(tasks: Seq<Task>, policy: PolicyConfig, n: nat)
    requires
        schedulable(tasks),
        policy.valid(),
    ensures
        settled(tasks, after(tasks, policy, n)),
    decreases n,
{
    if n == 0 {
        if tasks.len() > 0 {
            lemma_due(tasks, 1, 0);
            let s = start(tasks);
            if tasks[0].arrival <= 0 {
                assert(s.queue.len() > 0);
            } else {
                assert(s.arrived == 0);
            }
        }
    } else {
        let m = (n - 1) as nat;
        lemma_after_settled(tasks, policy, m);
        lemma_after_inv(tasks, policy, m);
        lemma_step_settled(tasks, policy, after(tasks, policy, m));
    }
}

/// A finished run stays where it is.
pub proof fn lemma_finished_stays(tasks: Seq<Task>, policy: PolicyConfig, n: nat, m: nat)
    requires
        finished(tasks, after(tasks, policy, n)),
        n <= m,
    ensures
        after(tasks, policy, m) == after(tasks, policy, n),
    decreases m,
{
    if n < m {
        lemma_finished_stays(tasks, policy, n, (m - 1) as nat);
    }
}

/// The clock never runs backwards.
pub proof fn lemma_clock_monotone(tasks: Seq<Task>, policy: PolicyConfig, n: nat, m: nat)
    requires
        schedulable(tasks),
        policy.valid(),
        n <= m,
    ensures
        after(tasks, policy, n).now <= after(tasks, policy, m).now,
    decreases m,
{
    if n < m {
        let k = (m - 1) as nat;
        lemma_clock_monotone(tasks, policy, n, k);
        lemma_after_inv(tasks, policy, k);
        lemma_step_inv(tasks, policy, after(tasks, policy, k));
    }
}

/// The position of the task with this identifier.
pub open spec fn index_of(tasks: Seq<Task>, id: u64) -> int {
    choose|j: int| 0 <= j < tasks.len() && (#[trigger] tasks[j]).id == id
}

/// The ready queue as positions in the task list.
pub open spec fn queue_of(tasks: Seq<Task>, ready: Seq<ReadyEntry>) -> Seq<int> {
    ready.map_values(|e: ReadyEntry| index_of(tasks, e.id))
}

pub proof fn lemma_index_of(tasks: Seq<Task>, j: int)
    requires
        schedulable(tasks),
        0 <= j < tasks.len(),
    ensures
        index_of(tasks, tasks[j].id) == j,
{
    let c = index_of(tasks, tasks[j].id);
    assert(0 <= c < tasks.len() && tasks[c].id == tasks[j].id);
    if c < j {
        assert(tasks[c].id != tasks[j].id);
    } else if j < c {
        assert(tasks[j].id != tasks[c].id);
    }
}

/// The identifiers in the ready set name the queue.
pub proof fn lemma_queue_of_entries(tasks: Seq<Task>, s: Sched)
    requires
        schedulable(tasks),
        inv_core(tasks, s),
    ensures
        queue_of(tasks, entries(tasks, s)) == s.queue,
{
    let q = queue_of(tasks, entries(tasks, s));
    assert forall|k: int| 0 <= k < s.queue.len() implies q[k] == s.queue[k] by {
        assert(0 <= s.queue[k] < s.arrived);
        lemma_index_of(tasks, s.queue[k]);
    }
    assert(q =~= s.queue);
}

/// No queued task has the identifier of a task that has yet to arrive.
pub proof fn lemma_entries_lack(tasks: Seq<Task>, s: Sched, j: int)
    requires
        schedulable(tasks),
        inv_core(tasks, s),
        s.arrived <= j < tasks.len(),
    ensures
        forall|k: int|
            0 <= k < entries(tasks, s).len() ==> (#[trigger] entries(tasks, s)[k]).id
                != tasks[j].id,
{
    assert forall|k: int| 0 <= k < entries(tasks, s).len() implies (#[trigger] entries(
        tasks,
        s,
    )[k]).id != tasks[j].id by {
        assert(0 <= s.queue[k] < s.arrived);
        assert(tasks[s.queue[k]].id != tasks[j].id);
    }
}

/// What the ready set holds after one more task has entered.
pub proof fn lemma_entries_enqueue(tasks: Seq<Task>, s: Sched, upto: int)
    requires
        schedulable(tasks),
        inv_core(tasks, s),
        s.arrived <= upto < tasks.len(),
    ensures
        entries(tasks, enqueue_range(s, upto + 1)) == entries(tasks, enqueue_range(s, upto)).push(
            entry_of(tasks[upto], Progress { enqueue_time: s.now, ..s.progress[upto] }),
        ),
{
    let a = enqueue_range(s, upto);
    let b = enqueue_range(s, upto + 1);
    let ea = entries(tasks, a);
    let eb = entries(tasks, b);
    let old_len = s.queue.len() as int;
    assert forall|k: int| 0 <= k < ea.len() implies eb[k] == ea[k] by {
        if k < old_len {
            assert(a.queue[k] == s.queue[k] && b.queue[k] == s.queue[k]);
            assert(0 <= s.queue[k] < s.arrived);
        } else {
            assert(a.queue[k] == s.arrived + (k - old_len));
            assert(b.queue[k] == s.arrived + (k - old_len));
        }
    }
    assert(b.queue[ea.len() as int] == upto);
    assert(eb =~= ea.push(
        entry_of(tasks[upto], Progress { enqueue_time: s.now, ..s.progress[upto] }),
    ));
}

/// What the ready set holds after the chosen job has run its slice.
pub proof fn lemma_entries_ran(tasks: Seq<Task>, policy: PolicyConfig, s: Sched)
    requires
        schedulable(tasks),
        policy.valid(),
        inv(tasks, s),
        s.queue.len() > 0,
    ensures
        ({
            let pos = chosen(tasks, policy, s);
            let j = s.queue[pos];
            let left = ran(tasks, policy, s).progress[j].remaining;
            let e = entries(tasks, s);
            entries(tasks, ran(tasks, policy, s)) == if left == 0 {
                e.remove(pos)
            } else {
                e.update(pos, ReadyEntry { remaining: left as u64, ..e[pos] })
            }
        }),
{
    lemma_slice(tasks, policy, s);
    let pos = chosen(tasks, policy, s);
    let j = s.queue[pos];
    let r = ran(tasks, policy, s);
    let left = r.progress[j].remaining;
    let e = entries(tasks, s);
    let er = entries(tasks, r);
    if left == 0 {
        assert forall|k: int| 0 <= k < er.len() implies er[k] == e.remove(pos)[k] by {
            let k0 = if k < pos { k } else { k + 1 };
            assert(r.queue[k] == s.queue[k0]);
            if k0 < pos {
                assert(s.queue[k0] != s.queue[pos]);
            } else {
                assert(s.queue[pos] != s.queue[k0]);
            }
        }
        assert(er =~= e.remove(pos));
    } else {
        let target = e.update(pos, ReadyEntry { remaining: left as u64, ..e[pos] });
        assert forall|k: int| 0 <= k < er.len() implies er[k] == target[k] by {
            if k < pos {
                assert(s.queue[k] != s.queue[pos]);
            } else if pos < k {
                assert(s.queue[pos] != s.queue[k]);
            }
        }
        assert(er =~= target);
    }
}

/// What the ready set holds after a job has gone to the tail.
pub proof fn lemma_entries_rotated(tasks: Seq<Task>, s: Sched, pos: int)
    requires
        inv_core(tasks, s),
        0 <= pos < s.queue.len(),
    ensures
        entries(tasks, rotated(s, pos)) == entries(tasks, s).remove(pos).push(
            ReadyEntry { enqueue_time: s.now as u64, ..entries(tasks, s)[pos] },
        ),
{
    let r = rotated(s, pos);
    let e = entries(tasks, s);
    let er = entries(tasks, r);
    let target = e.remove(pos).push(ReadyEntry { enqueue_time: s.now as u64, ..e[pos] });
    assert forall|k: int| 0 <= k < er.len() implies er[k] == target[k] by {
        if k < er.len() - 1 {
            let k0 = if k < pos { k } else { k + 1 };
            assert(r.queue[k] == s.queue[k0]);
            if k0 < pos {
                assert(s.queue[k0] != s.queue[pos]);
            } else {
                assert(s.queue[pos] != s.queue[k0]);
            }
        } else {
            assert(r.queue[k] == s.queue[pos]);
        }
    }
    assert(er =~= target);
}

} // verus!
