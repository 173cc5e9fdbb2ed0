//! Invariants of a run beyond the basic one: conservation of work, how the
//! trace accounts for every task, when the CPU may idle, a bound on the
//! clock, and what each policy keeps true of the queue and of the order of
//! completions.

use vstd::prelude::*;
use vstd::seq_lib::group_to_multiset_ensures;
use crate::intake::schedulable;
use crate::job::{PolicyConfig, Task};
use crate::model::{
    after, blank, chosen, enqueue_arrivals, entries, idled, inv, inv_core, job_inv,
    lemma_after_inv, lemma_due, lemma_idled_inv, lemma_ran_inv, lemma_slice, lemma_start_inv,
    ran, rotated, start, step, untouched, Progress, Sched,
};
use crate::ready::outranks;
use crate::trace::{
    busy_ticks, idle_ticks, lemma_append_shape, lemma_append_ticks, lemma_append_ticks_of,
    lemma_segment_bounds, lemma_ticks_cover, ticks_of, Label, Segment,
};

verus! {

/// The sum of the bursts.
pub open spec fn total_burst(tasks: Seq<Task>) -> int
    decreases tasks.len(),
{
    if tasks.len() == 0 {
        0
    } else {
        total_burst(tasks.drop_last()) + tasks.last().burst
    }
}

/// The sum of what is left to run.
pub open spec fn total_remaining(progress: Seq<Progress>) -> int
    decreases progress.len(),
{
    if progress.len() == 0 {
        0
    } else {
        total_remaining(progress.drop_last()) + progress.last().remaining
    }
}

pub proof fn lemma_total_burst_remove(tasks: Seq<Task>, i: int)
    requires
        0 <= i < tasks.len(),
    ensures
        total_burst(tasks) == total_burst(tasks.remove(i)) + tasks[i].burst,
    decreases tasks.len(),
{
    if i == tasks.len() - 1 {
        assert(tasks.remove(i) =~= tasks.drop_last());
    } else {
        lemma_total_burst_remove(tasks.drop_last(), i);
        assert(tasks.remove(i).drop_last() =~= tasks.drop_last().remove(i));
        assert(tasks.remove(i).last() == tasks.last());
    }
}

/// The sum of the bursts does not depend on the order of the tasks.
pub proof fn lemma_total_burst_rearranged(a: Seq<Task>, b: Seq<Task>)
    requires
        a.to_multiset() == b.to_multiset(),
    ensures
        total_burst(a) == total_burst(b),
    decreases a.len(),
{
    broadcast use group_to_multiset_ensures;

    assert(a.to_multiset().len() == a.len());
    assert(b.to_multiset().len() == b.len());
    if a.len() > 0 {
        let x = a.last();
        assert(a.contains(x));
        assert(b.to_multiset().count(x) > 0);
        assert(b.contains(x));
        let i = choose|i: int| 0 <= i < b.len() && b[i] == x;
        assert(a.drop_last() =~= a.remove(a.len() - 1));
        assert(a.remove(a.len() - 1).to_multiset() =~= a.to_multiset().remove(x));
        assert(b.remove(i).to_multiset() =~= b.to_multiset().remove(x));
        lemma_total_burst_rearranged(a.drop_last(), b.remove(i));
        lemma_total_burst_remove(b, i);
    }
}

pub proof fn lemma_total_remaining_update(progress: Seq<Progress>, j: int, p: Progress)
    requires
        0 <= j < progress.len(),
    ensures
        total_remaining(progress.update(j, p)) == total_remaining(progress)
            - progress[j].remaining + p.remaining,
    decreases progress.len(),
{
    if j == progress.len() - 1 {
        assert(progress.update(j, p).drop_last() =~= progress.drop_last());
    } else {
        lemma_total_remaining_update(progress.drop_last(), j, p);
        assert(progress.update(j, p).drop_last() =~= progress.drop_last().update(j, p));
    }
}

pub proof fn lemma_total_remaining_same(a: Seq<Progress>, b: Seq<Progress>)
    requires
        a.len() == b.len(),
        forall|i: int| 0 <= i < a.len() ==> (#[trigger] a[i]).remaining == b[i].remaining,
    ensures
        total_remaining(a) == total_remaining(b),
    decreases a.len(),
{
    if a.len() > 0 {
        assert forall|i: int| 0 <= i < a.drop_last().len() implies (
        #[trigger] a.drop_last()[i]).remaining == b.drop_last()[i].remaining by {
            assert(a[i].remaining == b[i].remaining);
        }
        lemma_total_remaining_same(a.drop_last(), b.drop_last());
        assert(a[a.len() - 1].remaining == b[a.len() - 1].remaining);
    }
}

pub proof fn lemma_total_untouched(tasks: Seq<Task>, progress: Seq<Progress>)
    requires
        tasks.len() == progress.len(),
        forall|i: int|
            0 <= i < tasks.len() ==> (#[trigger] progress[i]).remaining == tasks[i].burst,
    ensures
        total_remaining(progress) == total_burst(tasks),
    decreases tasks.len(),
{
    if tasks.len() > 0 {
        assert forall|i: int| 0 <= i < tasks.drop_last().len() implies (
        #[trigger] progress.drop_last()[i]).remaining == tasks.drop_last()[i].burst by {
            assert(progress[i].remaining == tasks[i].burst);
        }
        lemma_total_untouched(tasks.drop_last(), progress.drop_last());
        assert(progress[tasks.len() - 1].remaining == tasks[tasks.len() - 1].burst);
    }
}

pub proof fn lemma_total_remaining_zero(progress: Seq<Progress>)
    requires
        forall|i: int| 0 <= i < progress.len() ==> (#[trigger] progress[i]).remaining == 0,
    ensures
        total_remaining(progress) == 0,
    decreases progress.len(),
{
    if progress.len() > 0 {
        assert forall|i: int| 0 <= i < progress.drop_last().len() implies (
        #[trigger] progress.drop_last()[i]).remaining == 0 by {
            assert(progress[i].remaining == 0);
        }
        lemma_total_remaining_zero(progress.drop_last());
        assert(progress[progress.len() - 1].remaining == 0);
    }
}

/// Work is conserved: what the trace shows as run and what is left to run
/// add up to the sum of the bursts.
pub open spec fn work_conserved(tasks: Seq<Task>, s: Sched) -> bool {
    busy_ticks(s.trace) + total_remaining(s.progress) == total_burst(tasks)
}

proof fn lemma_enqueue_conserves(tasks: Seq<Task>, s: Sched)
    requires
        work_conserved(tasks, s),
    ensures
        work_conserved(tasks, enqueue_arrivals(tasks, s)),
{
    lemma_total_remaining_same(s.progress, enqueue_arrivals(tasks, s).progress);
}

pub proof fn lemma_step_conserves(tasks: Seq<Task>, policy: PolicyConfig, s: Sched)
    requires
        schedulable(tasks),
        policy.valid(),
        inv(tasks, s),
        work_conserved(tasks, s),
    ensures
        work_conserved(tasks, step(tasks, policy, s)),
{
    if s.queue.len() > 0 {
        lemma_slice(tasks, policy, s);
        let pos = chosen(tasks, policy, s);
        let j = s.queue[pos];
        let r0 = ran(tasks, policy, s);
        lemma_append_ticks(
            s.trace,
            Segment { start: s.now, end: r0.now, label: Label::Job(tasks[j].id) },
        );
        lemma_total_remaining_update(s.progress, j, r0.progress[j]);
        assert(r0.progress =~= s.progress.update(j, r0.progress[j]));
        if policy is RoundRobin && r0.progress[j].remaining > 0 {
            let turned = rotated(r0, pos);
            lemma_total_remaining_update(r0.progress, j, turned.progress[j]);
            assert(turned.progress =~= r0.progress.update(j, turned.progress[j]));
            lemma_enqueue_conserves(tasks, turned);
        } else {
            lemma_enqueue_conserves(tasks, r0);
        }
    } else if s.arrived < tasks.len() {
        let r0 = idled(tasks, s);
        lemma_append_ticks(s.trace, Segment { start: s.now, end: r0.now, label: Label::Idle });
        lemma_enqueue_conserves(tasks, r0);
    }
}

/// Work is conserved after any number of decisions.
pub proof fn lemma_after_conserves(tasks: Seq<Task>, policy: PolicyConfig, n: nat)
    requires
        schedulable(tasks),
        policy.valid(),
    ensures
        work_conserved(tasks, after(tasks, policy, n)),
    decreases n,
{
    if n == 0 {
        lemma_total_untouched(tasks, blank(tasks).progress);
        lemma_enqueue_conserves(tasks, blank(tasks));
    } else {
        let m = (n - 1) as nat;
        lemma_after_conserves(tasks, policy, m);
        lemma_after_inv(tasks, policy, m);
        lemma_step_conserves(tasks, policy, after(tasks, policy, m));
    }
}

/// Completions follow the order of the tasks: a task is completed only
/// after every task before it, and strictly later.
pub open spec fn completes_in_order(s: Sched) -> bool {
    forall|i: int, k: int|
        0 <= i < k < s.progress.len() && (#[trigger] s.progress[k]).completion is Some ==> (
        #[trigger] s.progress[i]).completion is Some && s.progress[i].completion->Some_0
            < s.progress[k].completion->Some_0
}

pub proof fn lemma_step_completes_in_order(tasks: Seq<Task>, s: Sched)
    requires
        schedulable(tasks),
        inv(tasks, s),
        completes_in_order(s),
    ensures
        completes_in_order(step(tasks, PolicyConfig::FCFS, s)),
{
    let policy = PolicyConfig::FCFS;
    let next = step(tasks, policy, s);
    if s.queue.len() > 0 {
        lemma_slice(tasks, policy, s);
        lemma_ran_inv(tasks, policy, s);
        let pos = chosen(tasks, policy, s);
        let j = s.queue[pos];
        let e = entries(tasks, s);
        let r0 = ran(tasks, policy, s);
        assert(job_inv(tasks[j], s.progress[j], s.now));
        assert forall|i: int| 0 <= i < j implies (#[trigger] s.progress[i]).completion is Some
            && s.progress[i].completion->Some_0 <= s.now by {
            assert(job_inv(tasks[i], s.progress[i], s.now));
            if s.progress[i].remaining >= 1 {
                assert(s.queue.contains(i));
                let m = choose|m: int| 0 <= m < s.queue.len() && s.queue[m] == i;
                assert(outranks(policy, e[pos], e[m]));
                assert(tasks[i].arrival <= tasks[j].arrival);
            }
        }
        assert forall|x: int| 0 <= x < s.progress.len() implies (
        #[trigger] next.progress[x]).completion == r0.progress[x].completion by {}
        assert forall|i: int, k: int|
            0 <= i < k < next.progress.len() && (#[trigger] next.progress[k]).completion
                is Some implies (#[trigger] next.progress[i]).completion is Some
            && next.progress[i].completion->Some_0 < next.progress[k].completion->Some_0 by {
            assert(next.progress[k].completion == r0.progress[k].completion);
            assert(next.progress[i].completion == r0.progress[i].completion);
            if k == j {
                assert(s.progress[i].completion is Some);
            } else if i == j {
                assert(s.progress[k].completion is Some);
                assert(s.progress[i].completion is Some);
            } else {
                assert(s.progress[k].completion is Some);
                assert(s.progress[i].completion is Some);
            }
        }
    } else if s.arrived < tasks.len() {
        assert forall|i: int, k: int|
            0 <= i < k < next.progress.len() && (#[trigger] next.progress[k]).completion
                is Some implies (#[trigger] next.progress[i]).completion is Some
            && next.progress[i].completion->Some_0 < next.progress[k].completion->Some_0 by {
            assert(s.progress[k].completion is Some);
            assert(s.progress[i].completion is Some);
        }
    }
}

/// Under first come, first served, completions follow the order of the
/// tasks after any number of decisions.
pub proof fn lemma_after_completes_in_order(tasks: Seq<Task>, n: nat)
    requires
        schedulable(tasks),
    ensures
        completes_in_order(after(tasks, PolicyConfig::FCFS, n)),
    decreases n,
{
    let policy = PolicyConfig::FCFS;
    if n == 0 {
        let s = start(tasks);
        assert forall|i: int, k: int|
            0 <= i < k < s.progress.len() && (#[trigger] s.progress[k]).completion
                is Some implies (#[trigger] s.progress[i]).completion is Some
            && s.progress[i].completion->Some_0 < s.progress[k].completion->Some_0 by {
            assert(blank(tasks).progress[k].completion is None);
        }
    } else {
        let m = (n - 1) as nat;
        lemma_after_completes_in_order(tasks, m);
        lemma_after_inv(tasks, policy, m);
        lemma_step_completes_in_order(tasks, after(tasks, policy, m));
    }
}

/// No queued task has run yet: each has its whole burst left.
pub open spec fn queue_unstarted(tasks: Seq<Task>, s: Sched) -> bool {
    forall|k: int|
        0 <= k < s.queue.len() ==> s.progress[#[trigger] s.queue[k]].remaining
            == tasks[s.queue[k]].burst
}

pub proof fn lemma_step_queue_unstarted(tasks: Seq<Task>, policy: PolicyConfig, s: Sched)
    requires
        schedulable(tasks),
        policy is FCFS || policy is SJN,
        inv(tasks, s),
        queue_unstarted(tasks, s),
    ensures
        queue_unstarted(tasks, step(tasks, policy, s)),
{
    let next = step(tasks, policy, s);
    if s.queue.len() > 0 {
        lemma_slice(tasks, policy, s);
        lemma_ran_inv(tasks, policy, s);
        let pos = chosen(tasks, policy, s);
        let j = s.queue[pos];
        let r0 = ran(tasks, policy, s);
        lemma_due(tasks, r0.arrived, r0.now);
        let old_len = r0.queue.len() as int;
        assert forall|k: int| 0 <= k < next.queue.len() implies next.progress[
        #[trigger] next.queue[k]].remaining == tasks[next.queue[k]].burst by {
            if k < old_len {
                let k0 = if k < pos { k } else { k + 1 };
                assert(next.queue[k] == r0.queue[k]);
                assert(r0.queue[k] == s.queue[k0]);
                if k0 < pos {
                    assert(s.queue[k0] != s.queue[pos]);
                } else {
                    assert(s.queue[pos] != s.queue[k0]);
                }
                assert(0 <= s.queue[k0] < s.arrived);
            } else {
                let x = r0.arrived + (k - old_len);
                assert(next.queue[k] == x);
                assert(r0.progress[x] == untouched(tasks[x]));
            }
        }
    } else if s.arrived < tasks.len() {
        lemma_idled_inv(tasks, s);
        let r0 = idled(tasks, s);
        lemma_due(tasks, r0.arrived, r0.now);
        assert forall|k: int| 0 <= k < next.queue.len() implies next.progress[
        #[trigger] next.queue[k]].remaining == tasks[next.queue[k]].burst by {
            let x = r0.arrived + k;
            assert(next.queue[k] == x);
            assert(r0.progress[x] == untouched(tasks[x]));
        }
    }
}

/// Without preemption, no queued task has run yet, after any number of
/// decisions.
pub proof fn lemma_after_queue_unstarted(tasks: Seq<Task>, policy: PolicyConfig, n: nat)
    requires
        schedulable(tasks),
        policy is FCFS || policy is SJN,
    ensures
        queue_unstarted(tasks, after(tasks, policy, n)),
    decreases n,
{
    if n == 0 {
        let s = start(tasks);
        let b = blank(tasks);
        lemma_start_inv(tasks);
        lemma_due(tasks, 0, 0);
        assert forall|k: int| 0 <= k < s.queue.len() implies s.progress[
        #[trigger] s.queue[k]].remaining == tasks[s.queue[k]].burst by {
            assert(s.queue[k] == k);
            assert(b.progress[k] == untouched(tasks[k]));
        }
    } else {
        let m = (n - 1) as nat;
        lemma_after_queue_unstarted(tasks, policy, m);
        lemma_after_inv(tasks, policy, m);
        lemma_step_queue_unstarted(tasks, policy, after(tasks, policy, m));
    }
}

/// The queue holds the tasks in the order of the task list.
pub open spec fn queue_in_order(s: Sched) -> bool {
    forall|a: int, b: int|
        0 <= a < b < s.queue.len() ==> #[trigger] s.queue[a] < #[trigger] s.queue[b]
}

/// No burst is longer than the quantum.
pub open spec fn covers_bursts(tasks: Seq<Task>, quantum: u64) -> bool {
    forall|i: int| 0 <= i < tasks.len() ==> (#[trigger] tasks[i]).burst <= quantum
}

proof fn lemma_enqueue_in_order(tasks: Seq<Task>, s: Sched)
    requires
        schedulable(tasks),
        inv_core(tasks, s),
        queue_in_order(s),
    ensures
        queue_in_order(enqueue_arrivals(tasks, s)),
{
    let r = enqueue_arrivals(tasks, s);
    let old_len = s.queue.len() as int;
    lemma_due(tasks, s.arrived, s.now);
    assert forall|a: int, b: int| 0 <= a < b < r.queue.len() implies #[trigger] r.queue[a]
        < #[trigger] r.queue[b] by {
        if a < old_len {
            assert(r.queue[a] == s.queue[a]);
            assert(0 <= s.queue[a] < s.arrived);
        }
        if b < old_len {
            assert(r.queue[b] == s.queue[b]);
        }
    }
}

/// Where the quantum covers every burst and the queue is in order, round
/// robin decides as first come, first served does.
pub proof fn lemma_step_same_as_fcfs(tasks: Seq<Task>, quantum: u64, s: Sched)
    requires
        schedulable(tasks),
        quantum >= 1,
        covers_bursts(tasks, quantum),
        inv(tasks, s),
        queue_in_order(s),
    ensures
        step(tasks, PolicyConfig::RoundRobin { quantum }, s) == step(
            tasks,
            PolicyConfig::FCFS,
            s,
        ),
        queue_in_order(step(tasks, PolicyConfig::FCFS, s)),
{
    let rr = PolicyConfig::RoundRobin { quantum };
    let fcfs = PolicyConfig::FCFS;
    if s.queue.len() > 0 {
        lemma_slice(tasks, rr, s);
        lemma_slice(tasks, fcfs, s);
        lemma_ran_inv(tasks, fcfs, s);
        let e = entries(tasks, s);
        let pos = chosen(tasks, fcfs, s);
        assert(chosen(tasks, rr, s) == 0);
        if pos > 0 {
            assert(s.queue[0] < s.queue[pos]);
            assert(outranks(fcfs, e[pos], e[0]));
            assert(tasks[s.queue[0]].arrival <= tasks[s.queue[pos]].arrival);
        }
        let j = s.queue[0];
        assert(job_inv(tasks[j], s.progress[j], s.now));
        assert(tasks[j].burst <= quantum);
        let r = ran(tasks, fcfs, s);
        assert(ran(tasks, rr, s) == r);
        assert(r.progress[j].remaining == 0);
        assert forall|a: int, b: int| 0 <= a < b < r.queue.len() implies #[trigger] r.queue[a]
            < #[trigger] r.queue[b] by {
            assert(r.queue[a] == s.queue[a + 1] && r.queue[b] == s.queue[b + 1]);
        }
        lemma_enqueue_in_order(tasks, r);
    } else if s.arrived < tasks.len() {
        lemma_idled_inv(tasks, s);
        lemma_enqueue_in_order(tasks, idled(tasks, s));
    }
}

/// Where the quantum covers every burst, round robin passes through the
/// states of first come, first served.
pub proof fn lemma_after_same_as_fcfs(tasks: Seq<Task>, quantum: u64, n: nat)
    requires
        schedulable(tasks),
        quantum >= 1,
        covers_bursts(tasks, quantum),
    ensures
        after(tasks, PolicyConfig::RoundRobin { quantum }, n) == after(
            tasks,
            PolicyConfig::FCFS,
            n,
        ),
        queue_in_order(after(tasks, PolicyConfig::FCFS, n)),
    decreases n,
{
    if n == 0 {
        lemma_start_inv(tasks);
        lemma_enqueue_in_order(tasks, blank(tasks));
    } else {
        let m = (n - 1) as nat;
        lemma_after_same_as_fcfs(tasks, quantum, m);
        lemma_after_inv(tasks, PolicyConfig::FCFS, m);
        lemma_step_same_as_fcfs(tasks, quantum, after(tasks, PolicyConfig::FCFS, m));
    }
}

/// The trace accounts for every task: the segments that carry its
/// identifier add up to what it has run so far.
pub open spec fn accounted(tasks: Seq<Task>, s: Sched) -> bool {
    forall|j: int|
        0 <= j < tasks.len() ==> ticks_of(s.trace, Label::Job((#[trigger] tasks[j]).id))
            == tasks[j].burst - s.progress[j].remaining
}

pub proof fn lemma_step_accounted(tasks: Seq<Task>, policy: PolicyConfig, s: Sched)
    requires
        schedulable(tasks),
        policy.valid(),
        inv(tasks, s),
        accounted(tasks, s),
    ensures
        accounted(tasks, step(tasks, policy, s)),
{
    let next = step(tasks, policy, s);
    if s.queue.len() > 0 {
        lemma_slice(tasks, policy, s);
        let pos = chosen(tasks, policy, s);
        let j = s.queue[pos];
        let r = ran(tasks, policy, s);
        assert(next.trace == r.trace);
        assert forall|x: int| 0 <= x < tasks.len() implies ticks_of(
            next.trace,
            Label::Job((#[trigger] tasks[x]).id),
        ) == tasks[x].burst - next.progress[x].remaining by {
            lemma_append_ticks_of(
                s.trace,
                Segment { start: s.now, end: r.now, label: Label::Job(tasks[j].id) },
                Label::Job(tasks[x].id),
            );
            assert(next.progress[x].remaining == r.progress[x].remaining);
            if x < j {
                assert(tasks[x].id != tasks[j].id);
            } else if j < x {
                assert(tasks[j].id != tasks[x].id);
            }
        }
    } else if s.arrived < tasks.len() {
        let r = idled(tasks, s);
        assert(next.trace == r.trace);
        assert forall|x: int| 0 <= x < tasks.len() implies ticks_of(
            next.trace,
            Label::Job((#[trigger] tasks[x]).id),
        ) == tasks[x].burst - next.progress[x].remaining by {
            lemma_append_ticks_of(
                s.trace,
                Segment { start: s.now, end: r.now, label: Label::Idle },
                Label::Job(tasks[x].id),
            );
            assert(next.progress[x].remaining == s.progress[x].remaining);
        }
    }
}

/// The trace accounts for every task after any number of decisions.
pub proof fn lemma_after_accounted(tasks: Seq<Task>, policy: PolicyConfig, n: nat)
    requires
        schedulable(tasks),
        policy.valid(),
    ensures
        accounted(tasks, after(tasks, policy, n)),
    decreases n,
{
    if n == 0 {
        let s = start(tasks);
        assert forall|j: int| 0 <= j < tasks.len() implies ticks_of(
            s.trace,
            Label::Job((#[trigger] tasks[j]).id),
        ) == tasks[j].burst - s.progress[j].remaining by {
            assert(blank(tasks).progress[j].remaining == tasks[j].burst);
        }
    } else {
        let m = (n - 1) as nat;
        lemma_after_accounted(tasks, policy, m);
        lemma_after_inv(tasks, policy, m);
        lemma_step_accounted(tasks, policy, after(tasks, policy, m));
    }
}

/// Segment `seg` belongs to task `t`, whose progress is `p`: it carries the
/// task's identifier, starts no earlier than the task arrived and first
/// started, and ends no later than the task completed.
pub open spec fn within_life(t: Task, p: Progress, seg: Segment) -> bool {
    &&& seg.label == Label::Job(t.id)
    &&& t.arrival <= seg.start
    &&& p.first_start is Some && p.first_start->Some_0 <= seg.start
    &&& p.completion is Some ==> seg.end <= p.completion->Some_0
}

/// Every segment in which a job ran belongs to a task and lies within its
/// life.
pub open spec fn runs_within_life(tasks: Seq<Task>, s: Sched) -> bool {
    forall|k: int|
        0 <= k < s.trace.len() && (#[trigger] s.trace[k]).label is Job ==> exists|j: int|
            0 <= j < tasks.len() && within_life(tasks[j], #[trigger] s.progress[j], s.trace[k])
}

pub proof fn lemma_step_runs_within_life(tasks: Seq<Task>, policy: PolicyConfig, s: Sched)
    requires
        schedulable(tasks),
        policy.valid(),
        inv(tasks, s),
        runs_within_life(tasks, s),
    ensures
        runs_within_life(tasks, step(tasks, policy, s)),
{
    let next = step(tasks, policy, s);
    if s.queue.len() > 0 {
        lemma_slice(tasks, policy, s);
        lemma_ran_inv(tasks, policy, s);
        let pos = chosen(tasks, policy, s);
        let j = s.queue[pos];
        let r = ran(tasks, policy, s);
        let seg = Segment { start: s.now, end: r.now, label: Label::Job(tasks[j].id) };
        lemma_append_shape(s.trace, seg);
        assert(next.trace == r.trace);
        assert(job_inv(tasks[j], s.progress[j], s.now));
        assert(job_inv(tasks[j], r.progress[j], r.now));
        assert forall|x: int| 0 <= x < tasks.len() implies (#[trigger] next.progress[x]).first_start
            == r.progress[x].first_start && next.progress[x].completion
            == r.progress[x].completion by {}
        assert forall|k: int|
            0 <= k < next.trace.len() && (#[trigger] next.trace[k]).label is Job implies exists|
            x: int,
        |
            0 <= x < tasks.len() && within_life(
                tasks[x],
                #[trigger] next.progress[x],
                next.trace[k],
            ) by {
            if k < next.trace.len() - 1 {
                assert(next.trace[k] == s.trace[k]);
                let x = choose|x: int|
                    0 <= x < tasks.len() && within_life(
                        tasks[x],
                        #[trigger] s.progress[x],
                        s.trace[k],
                    );
                lemma_segment_bounds(s.trace, k);
                assert(next.progress[x].first_start == r.progress[x].first_start);
                assert(within_life(tasks[x], next.progress[x], next.trace[k]));
            } else {
                if next.trace.len() == s.trace.len() {
                    let last = s.trace.len() - 1;
                    let x = choose|x: int|
                        0 <= x < tasks.len() && within_life(
                            tasks[x],
                            #[trigger] s.progress[x],
                            s.trace[last],
                        );
                    if x < j {
                        assert(tasks[x].id != tasks[j].id);
                    } else if j < x {
                        assert(tasks[j].id != tasks[x].id);
                    }
                }
                assert(next.progress[j].first_start == r.progress[j].first_start);
                assert(within_life(tasks[j], next.progress[j], next.trace[k]));
            }
        }
    } else if s.arrived < tasks.len() {
        let r = idled(tasks, s);
        let seg = Segment { start: s.now, end: r.now, label: Label::Idle };
        lemma_append_shape(s.trace, seg);
        assert(next.trace == r.trace);
        assert forall|k: int|
            0 <= k < next.trace.len() && (#[trigger] next.trace[k]).label is Job implies exists|
            x: int,
        |
            0 <= x < tasks.len() && within_life(
                tasks[x],
                #[trigger] next.progress[x],
                next.trace[k],
            ) by {
            assert(next.trace[k] == s.trace[k]);
            let x = choose|x: int|
                0 <= x < tasks.len() && within_life(
                    tasks[x],
                    #[trigger] s.progress[x],
                    s.trace[k],
                );
            assert(next.progress[x].first_start == s.progress[x].first_start);
            assert(within_life(tasks[x], next.progress[x], next.trace[k]));
        }
    }
}

/// Every segment in which a job ran lies within the life of its task, after
/// any number of decisions.
pub proof fn lemma_after_runs_within_life(tasks: Seq<Task>, policy: PolicyConfig, n: nat)
    requires
        schedulable(tasks),
        policy.valid(),
    ensures
        runs_within_life(tasks, after(tasks, policy, n)),
    decreases n,
{
    if n > 0 {
        let m = (n - 1) as nat;
        lemma_after_runs_within_life(tasks, policy, m);
        lemma_after_inv(tasks, policy, m);
        lemma_step_runs_within_life(tasks, policy, after(tasks, policy, m));
    }
}

/// During segment `seg` task `t` is not ready: it arrives no earlier than
/// the segment ends, or it completed no later than the segment starts.
pub open spec fn out_of_the_way(t: Task, p: Progress, seg: Segment) -> bool {
    t.arrival >= seg.end || (p.completion is Some && p.completion->Some_0 <= seg.start)
}

/// The CPU idles only while no task is ready.
pub open spec fn idles_only_when_free(tasks: Seq<Task>, s: Sched) -> bool {
    forall|k: int, j: int|
        0 <= k < s.trace.len() && 0 <= j < tasks.len() && (#[trigger] s.trace[k]).label is Idle
            ==> out_of_the_way(tasks[j], #[trigger] s.progress[j], s.trace[k])
}

pub proof fn lemma_step_idles_only_when_free(tasks: Seq<Task>, policy: PolicyConfig, s: Sched)
    requires
        schedulable(tasks),
        policy.valid(),
        inv(tasks, s),
        idles_only_when_free(tasks, s),
    ensures
        idles_only_when_free(tasks, step(tasks, policy, s)),
{
    let next = step(tasks, policy, s);
    if s.queue.len() > 0 {
        lemma_slice(tasks, policy, s);
        lemma_ran_inv(tasks, policy, s);
        let pos = chosen(tasks, policy, s);
        let j = s.queue[pos];
        let r = ran(tasks, policy, s);
        let seg = Segment { start: s.now, end: r.now, label: Label::Job(tasks[j].id) };
        lemma_append_shape(s.trace, seg);
        assert(next.trace == r.trace);
        assert forall|x: int| 0 <= x < tasks.len() implies (#[trigger] next.progress[x]).completion
            == r.progress[x].completion by {}
        assert forall|k: int, x: int|
            0 <= k < next.trace.len() && 0 <= x < tasks.len() && (
            #[trigger] next.trace[k]).label is Idle implies out_of_the_way(
            tasks[x],
            #[trigger] next.progress[x],
            next.trace[k],
        ) by {
            assert(next.trace[k] == s.trace[k]);
            assert(out_of_the_way(tasks[x], s.progress[x], s.trace[k]));
            assert(next.progress[x].completion == r.progress[x].completion);
            assert(job_inv(tasks[x], s.progress[x], s.now));
        }
    } else if s.arrived < tasks.len() {
        lemma_idled_inv(tasks, s);
        let r = idled(tasks, s);
        let seg = Segment { start: s.now, end: r.now, label: Label::Idle };
        lemma_append_shape(s.trace, seg);
        assert(next.trace == r.trace);
        assert forall|k: int, x: int|
            0 <= k < next.trace.len() && 0 <= x < tasks.len() && (
            #[trigger] next.trace[k]).label is Idle implies out_of_the_way(
            tasks[x],
            #[trigger] next.progress[x],
            next.trace[k],
        ) by {
            assert(next.progress[x].completion == s.progress[x].completion);
            assert(job_inv(tasks[x], s.progress[x], s.now));
            if k < next.trace.len() - 1 {
                assert(next.trace[k] == s.trace[k]);
                assert(out_of_the_way(tasks[x], s.progress[x], s.trace[k]));
            } else {
                if x < s.arrived {
                    if s.progress[x].remaining >= 1 {
                        assert(s.queue.contains(x));
                    }
                    if next.trace.len() == s.trace.len() {
                        let last = s.trace.len() - 1;
                        assert(out_of_the_way(tasks[x], s.progress[x], s.trace[last]));
                    }
                } else {
                    assert(tasks[s.arrived].arrival <= tasks[x].arrival);
                }
            }
        }
    }
}

/// The CPU idles only while no task is ready, after any number of
/// decisions.
pub proof fn lemma_after_idles_only_when_free(tasks: Seq<Task>, policy: PolicyConfig, n: nat)
    requires
        schedulable(tasks),
        policy.valid(),
    ensures
        idles_only_when_free(tasks, after(tasks, policy, n)),
    decreases n,
{
    if n > 0 {
        let m = (n - 1) as nat;
        lemma_after_idles_only_when_free(tasks, policy, m);
        lemma_after_inv(tasks, policy, m);
        lemma_step_idles_only_when_free(tasks, policy, after(tasks, policy, m));
    }
}

/// A task that is completed was completed one burst after it first started.
pub open spec fn in_one_piece(t: Task, p: Progress) -> bool {
    p.completion is Some ==> p.first_start->Some_0 + t.burst == p.completion->Some_0
}

/// Every completed task ran in one piece.
pub open spec fn runs_in_one_piece(tasks: Seq<Task>, s: Sched) -> bool {
    forall|j: int| 0 <= j < tasks.len() ==> in_one_piece(tasks[j], #[trigger] s.progress[j])
}

pub proof fn lemma_step_runs_in_one_piece(tasks: Seq<Task>, policy: PolicyConfig, s: Sched)
    requires
        schedulable(tasks),
        policy is FCFS || policy is SJN,
        inv(tasks, s),
        queue_unstarted(tasks, s),
        runs_in_one_piece(tasks, s),
    ensures
        runs_in_one_piece(tasks, step(tasks, policy, s)),
{
    let next = step(tasks, policy, s);
    if s.queue.len() > 0 {
        lemma_slice(tasks, policy, s);
        let pos = chosen(tasks, policy, s);
        let j = s.queue[pos];
        let r = ran(tasks, policy, s);
        assert(job_inv(tasks[j], s.progress[j], s.now));
        assert(s.progress[s.queue[pos]].remaining == tasks[s.queue[pos]].burst);
        assert forall|x: int| 0 <= x < tasks.len() implies in_one_piece(
            tasks[x],
            #[trigger] next.progress[x],
        ) by {
            assert(next.progress[x].completion == r.progress[x].completion);
            assert(next.progress[x].first_start == r.progress[x].first_start);
            assert(in_one_piece(tasks[x], s.progress[x]));
        }
    } else if s.arrived < tasks.len() {
        assert forall|x: int| 0 <= x < tasks.len() implies in_one_piece(
            tasks[x],
            #[trigger] next.progress[x],
        ) by {
            assert(in_one_piece(tasks[x], s.progress[x]));
        }
    }
}

/// Without preemption every completed task ran in one piece, after any
/// number of decisions.
pub proof fn lemma_after_runs_in_one_piece(tasks: Seq<Task>, policy: PolicyConfig, n: nat)
    requires
        schedulable(tasks),
        policy is FCFS || policy is SJN,
    ensures
        runs_in_one_piece(tasks, after(tasks, policy, n)),
    decreases n,
{
    if n == 0 {
        let s = start(tasks);
        assert forall|j: int| 0 <= j < tasks.len() implies in_one_piece(
            tasks[j],
            #[trigger] s.progress[j],
        ) by {
            assert(blank(tasks).progress[j].completion is None);
        }
    } else {
        let m = (n - 1) as nat;
        lemma_after_runs_in_one_piece(tasks, policy, m);
        lemma_after_queue_unstarted(tasks, policy, m);
        lemma_after_inv(tasks, policy, m);
        lemma_step_runs_in_one_piece(tasks, policy, after(tasks, policy, m));
    }
}

/// The arrival of the last task to arrive; zero where there are no tasks.
pub open spec fn last_arrival(tasks: Seq<Task>) -> int {
    if tasks.len() == 0 {
        0
    } else {
        tasks.last().arrival as int
    }
}

/// All idle time lies before the arrival of a task that has arrived.
pub open spec fn idles_before_arrivals(tasks: Seq<Task>, s: Sched) -> bool {
    idle_ticks(s.trace) <= if s.arrived > 0 {
        tasks[s.arrived - 1].arrival as int
    } else {
        0
    }
}

pub proof fn lemma_step_idles_before_arrivals(tasks: Seq<Task>, policy: PolicyConfig, s: Sched)
    requires
        schedulable(tasks),
        policy.valid(),
        inv(tasks, s),
        idles_before_arrivals(tasks, s),
    ensures
        idles_before_arrivals(tasks, step(tasks, policy, s)),
{
    let next = step(tasks, policy, s);
    if s.queue.len() > 0 {
        lemma_slice(tasks, policy, s);
        lemma_ran_inv(tasks, policy, s);
        let pos = chosen(tasks, policy, s);
        let j = s.queue[pos];
        let r = ran(tasks, policy, s);
        lemma_append_ticks(
            s.trace,
            Segment { start: s.now, end: r.now, label: Label::Job(tasks[j].id) },
        );
        lemma_due(tasks, r.arrived, r.now);
        assert(next.trace == r.trace);
        assert(next.arrived >= s.arrived);
        if s.arrived > 0 && next.arrived > s.arrived {
            assert(tasks[s.arrived - 1].arrival <= tasks[next.arrived - 1].arrival);
        }
    } else if s.arrived < tasks.len() {
        lemma_idled_inv(tasks, s);
        let r = idled(tasks, s);
        lemma_append_ticks(s.trace, Segment { start: s.now, end: r.now, label: Label::Idle });
        lemma_ticks_cover(s.trace);
        lemma_due(tasks, s.arrived + 1, r.now);
        assert(next.trace == r.trace);
        assert(next.arrived >= s.arrived + 1);
        if next.arrived - 1 > s.arrived {
            assert(tasks[s.arrived].arrival <= tasks[next.arrived - 1].arrival);
        }
    }
}

pub proof fn lemma_total_remaining_nonnegative(progress: Seq<Progress>)
    requires
        forall|i: int| 0 <= i < progress.len() ==> (#[trigger] progress[i]).remaining >= 0,
    ensures
        total_remaining(progress) >= 0,
    decreases progress.len(),
{
    if progress.len() > 0 {
        assert forall|i: int| 0 <= i < progress.drop_last().len() implies (
        #[trigger] progress.drop_last()[i]).remaining >= 0 by {
            assert(progress[i].remaining >= 0);
        }
        lemma_total_remaining_nonnegative(progress.drop_last());
        assert(progress[progress.len() - 1].remaining >= 0);
    }
}

/// The clock never passes the last arrival plus the sum of the bursts.
pub proof fn lemma_clock_bound(tasks: Seq<Task>, policy: PolicyConfig, n: nat)
    requires
        schedulable(tasks),
        policy.valid(),
    ensures
        idles_before_arrivals(tasks, after(tasks, policy, n)),
        after(tasks, policy, n).now <= last_arrival(tasks) + total_burst(tasks),
    decreases n,
{
    let s = after(tasks, policy, n);
    if n > 0 {
        let m = (n - 1) as nat;
        lemma_clock_bound(tasks, policy, m);
        lemma_after_inv(tasks, policy, m);
        lemma_step_idles_before_arrivals(tasks, policy, after(tasks, policy, m));
    }
    lemma_after_inv(tasks, policy, n);
    lemma_after_conserves(tasks, policy, n);
    lemma_ticks_cover(s.trace);
    assert forall|i: int| 0 <= i < s.progress.len() implies (#[trigger] s.progress[i]).remaining
        >= 0 by {
        assert(job_inv(tasks[i], s.progress[i], s.now));
    }
    lemma_total_remaining_nonnegative(s.progress);
    if s.arrived > 0 && s.arrived < tasks.len() {
        assert(tasks[s.arrived - 1].arrival <= tasks[tasks.len() - 1].arrival);
    }
}

} // verus!
