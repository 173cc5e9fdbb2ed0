//! Intake of a job set: validation of each job, the check for repeated
//! identifiers, and the arrangement of the jobs in order of arrival.

use vstd::prelude::*;
use vstd::relations::{sorted_by, total_ordering};
use vstd::seq_lib::{group_to_multiset_ensures, lemma_sorted_unique};
use crate::job::{Job, SimError, Task};

verus! {

/// Some job breaks its own invariant.
pub open spec fn has_defect(jobs: Seq<Job>) -> bool {
    exists|i: int| 0 <= i < jobs.len() && (#[trigger] jobs[i]).defect() is Some
}

/// Job `i` is the first one, in input order, that breaks its invariant.
pub open spec fn is_first_defect(jobs: Seq<Job>, i: int) -> bool {
    &&& 0 <= i < jobs.len()
    &&& jobs[i].defect() is Some
    &&& forall|k: int| 0 <= k < i ==> (#[trigger] jobs[k]).defect() is None
}

/// The position of the first defective job. Meaningful where `has_defect`.
pub open spec fn first_defect(jobs: Seq<Job>) -> int {
    choose|i: int| is_first_defect(jobs, i)
}

/// Job `j` carries the identifier of a job before it.
pub open spec fn repeats(jobs: Seq<Job>, j: int) -> bool {
    exists|i: int| 0 <= i < j && (#[trigger] jobs[i]).id == jobs[j].id
}

/// Two jobs share an identifier.
pub open spec fn has_repeat(jobs: Seq<Job>) -> bool {
    exists|j: int| 0 <= j < jobs.len() && #[trigger] repeats(jobs, j)
}

/// Job `j` is the first one, in input order, whose identifier was seen before.
pub open spec fn is_first_repeat(jobs: Seq<Job>, j: int) -> bool {
    &&& 0 <= j < jobs.len()
    &&& repeats(jobs, j)
    &&& forall|k: int| 0 <= k < j ==> !#[trigger] repeats(jobs, k)
}

/// The position of the first repeated identifier. Meaningful where
/// `has_repeat`.
pub open spec fn first_repeat(jobs: Seq<Job>) -> int {
    choose|j: int| is_first_repeat(jobs, j)
}

/// The error that turns a job set away, if any: the first defective job, or
/// else the first repeated identifier.
pub open spec fn rejection(jobs: Seq<Job>) -> Option<SimError> {
    if has_defect(jobs) {
        let i = first_defect(jobs);
        Some(SimError::InvalidJob { id: jobs[i].id, reason: jobs[i].defect()->Some_0 })
    } else if has_repeat(jobs) {
        Some(SimError::DuplicateJobId { id: jobs[first_repeat(jobs)].id })
    } else {
        None
    }
}

/// The jobs as tasks, in input order.
pub open spec fn tasks_of(jobs: Seq<Job>) -> Seq<Task> {
    jobs.map_values(|j: Job| j.task())
}

/// The order of arrangement: by arrival, then by identifier. The burst comes
/// last so that the relation is a total order on all tasks.
pub open spec fn task_le(a: Task, b: Task) -> bool {
    a.arrival < b.arrival || (a.arrival == b.arrival && (a.id < b.id || (a.id == b.id && a.burst
        <= b.burst)))
}

pub open spec fn task_order() -> spec_fn(Task, Task) -> bool {
    |a: Task, b: Task| task_le(a, b)
}

/// The tasks of a job set in order of (arrival, identifier).
pub open spec fn arranged(jobs: Seq<Job>) -> Seq<Task> {
    tasks_of(jobs).sort_by(task_order())
}

/// What a run can start from: tasks in order of (arrival, identifier), with
/// distinct identifiers and positive bursts.
pub open spec fn schedulable(tasks: Seq<Task>) -> bool {
    &&& forall|i: int| 0 <= i < tasks.len() ==> (#[trigger] tasks[i]).burst >= 1
    &&& forall|i: int, j: int|
        0 <= i < j < tasks.len() ==> (#[trigger] tasks[i]).id != (#[trigger] tasks[j]).id
    &&& forall|i: int, j: int|
        0 <= i < j < tasks.len() ==> (#[trigger] tasks[i]).arrival <= (#[trigger] tasks[j]).arrival
            && (tasks[i].arrival == tasks[j].arrival ==> tasks[i].id < tasks[j].id)
}

pub proof fn lemma_first_defect(jobs: Seq<Job>, i: int)
    requires
        is_first_defect(jobs, i),
    ensures
        has_defect(jobs),
        first_defect(jobs) == i,
{
    let c = first_defect(jobs);
    assert(is_first_defect(jobs, c));
    if c < i {
        assert(jobs[c].defect() is None);
    } else if i < c {
        assert(jobs[i].defect() is None);
    }
}

pub proof fn lemma_first_repeat(jobs: Seq<Job>, j: int)
    requires
        is_first_repeat(jobs, j),
    ensures
        has_repeat(jobs),
        first_repeat(jobs) == j,
{
    let c = first_repeat(jobs);
    assert(is_first_repeat(jobs, c));
    if c < j {
        assert(!repeats(jobs, c));
    } else if j < c {
        assert(!repeats(jobs, j));
    }
}

pub proof fn lemma_task_order_total()
    ensures
        total_ordering(task_order()),
{
    let r = task_order();
    assert forall|x: Task, y: Task| #[trigger] r(x, y) && #[trigger] r(y, x) implies x == y by {
        assert(task_le(x, y) && task_le(y, x));
    }
    assert forall|x: Task, y: Task, z: Task| #[trigger] r(x, y) && #[trigger] r(y, z) implies r(
        x,
        z,
    ) by {
        assert(task_le(x, y) && task_le(y, z));
        assert(task_le(x, z));
    }
    assert forall|x: Task, y: Task| #[trigger] r(x, y) || #[trigger] r(y, x) by {
        assert(task_le(x, y) || task_le(y, x));
    }
    assert forall|x: Task| #[trigger] r(x, x) by {
        assert(task_le(x, x));
    }
}

/// A job set that is not turned away arranges into schedulable tasks: the
/// same tasks, each exactly once, in order of (arrival, identifier).
pub proof fn lemma_arranged_schedulable(jobs: Seq<Job>)
    requires
        rejection(jobs) is None,
    ensures
        schedulable(arranged(jobs)),
        arranged(jobs).len() == jobs.len(),
        arranged(jobs).to_multiset() == tasks_of(jobs).to_multiset(),
        forall|p: int|
            0 <= p < arranged(jobs).len() ==> tasks_of(jobs).contains(#[trigger] arranged(jobs)[p]),
{
    broadcast use group_to_multiset_ensures;

    let ts = tasks_of(jobs);
    let s = arranged(jobs);
    lemma_task_order_total();
    ts.lemma_sort_by_ensures(task_order());
    assert(s.to_multiset().len() == s.len());
    assert(ts.to_multiset().len() == ts.len());
    assert forall|a: int, b: int| 0 <= a < b < jobs.len() implies (#[trigger] jobs[a]).id != (
    #[trigger] jobs[b]).id by {
        assert(!repeats(jobs, b));
    }
    assert forall|a: int, b: int| 0 <= a < ts.len() && 0 <= b < ts.len() && a != b implies ts[a]
        != ts[b] by {
        if a < b {
            assert(jobs[a].id != jobs[b].id);
        } else {
            assert(jobs[b].id != jobs[a].id);
        }
    }
    ts.lemma_multiset_has_no_duplicates();
    s.lemma_multiset_has_no_duplicates_conv();
    assert forall|p: int| 0 <= p < s.len() implies ts.contains(#[trigger] s[p]) by {
        assert(s.contains(s[p]));
    }
    assert forall|p: int| 0 <= p < s.len() implies (#[trigger] s[p]).burst >= 1 by {
        assert(ts.contains(s[p]));
        let k = choose|k: int| 0 <= k < ts.len() && ts[k] == s[p];
        assert(jobs[k].defect() is None);
    }
    assert forall|p: int, q: int| 0 <= p < q < s.len() implies (#[trigger] s[p]).id != (
    #[trigger] s[q]).id by {
        assert(ts.contains(s[p]) && ts.contains(s[q]));
        let k1 = choose|k: int| 0 <= k < ts.len() && ts[k] == s[p];
        let k2 = choose|k: int| 0 <= k < ts.len() && ts[k] == s[q];
        if s[p].id == s[q].id {
            if k1 < k2 {
                assert(jobs[k1].id != jobs[k2].id);
            } else if k2 < k1 {
                assert(jobs[k2].id != jobs[k1].id);
            }
            assert(s[p] == s[q]);
        }
    }
    assert forall|p: int, q: int| 0 <= p < q < s.len() implies (#[trigger] s[p]).arrival <= (
    #[trigger] s[q]).arrival && (s[p].arrival == s[q].arrival ==> s[p].id < s[q].id) by {
        assert(task_order()(s[p], s[q]));
        assert(task_le(s[p], s[q]));
        assert(s[p].id != s[q].id);
    }
}

/// The tasks of a job set are the same, each as often, whatever the order of
/// the jobs.
pub proof fn lemma_tasks_of_rearranged(a: Seq<Job>, b: Seq<Job>)
    requires
        a.to_multiset() == b.to_multiset(),
    ensures
        tasks_of(a).to_multiset() == tasks_of(b).to_multiset(),
    decreases a.len(),
{
    broadcast use group_to_multiset_ensures;

    assert(a.to_multiset().len() == a.len());
    assert(b.to_multiset().len() == b.len());
    if a.len() == 0 {
        assert(tasks_of(a) =~= tasks_of(b));
    } else {
        let x = a.last();
        assert(a.contains(x));
        assert(b.to_multiset().count(x) > 0);
        assert(b.contains(x));
        let i = choose|i: int| 0 <= i < b.len() && b[i] == x;
        let a1 = a.drop_last();
        let b1 = b.remove(i);
        assert(a1 =~= a.remove(a.len() - 1));
        assert(a.remove(a.len() - 1).to_multiset() =~= a.to_multiset().remove(x));
        assert(b1.to_multiset() =~= b.to_multiset().remove(x));
        lemma_tasks_of_rearranged(a1, b1);
        let ta = tasks_of(a);
        let tb = tasks_of(b);
        assert(ta =~= tasks_of(a1).push(x.task()));
        assert(tasks_of(b1) =~= tb.remove(i));
        assert(tb.remove(i).to_multiset() =~= tb.to_multiset().remove(tb[i]));
        assert(tb.contains(tb[i]));
        assert(tb.to_multiset().count(tb[i]) > 0);
        assert(ta.to_multiset() =~= tasks_of(a1).to_multiset().insert(x.task()));
        assert(tb.to_multiset() =~= tb.to_multiset().remove(tb[i]).insert(tb[i]));
    }
}

/// A job set that is not turned away is not turned away in any other order
/// either, and it arranges into the same tasks.
pub proof fn lemma_arranged_rearranged(a: Seq<Job>, b: Seq<Job>)
    requires
        a.to_multiset() == b.to_multiset(),
        rejection(a) is None,
    ensures
        rejection(b) is None,
        arranged(a) == arranged(b),
{
    broadcast use group_to_multiset_ensures;

    assert forall|i: int| 0 <= i < b.len() implies a.contains(#[trigger] b[i]) by {
        assert(b.contains(b[i]));
        assert(b.to_multiset().count(b[i]) > 0);
    }
    assert forall|i: int| 0 <= i < b.len() implies (#[trigger] b[i]).defect() is None by {
        assert(a.contains(b[i]));
        let k = choose|k: int| 0 <= k < a.len() && a[k] == b[i];
        assert(!has_defect(a));
        assert(a[k].defect() is None);
    }
    assert forall|x: int, y: int| 0 <= x < y < a.len() implies (#[trigger] a[x]).id != (
    #[trigger] a[y]).id by {
        assert(!repeats(a, y));
    }
    assert forall|x: int, y: int| 0 <= x < a.len() && 0 <= y < a.len() && x != y implies a[x]
        != a[y] by {
        if x < y {
            assert(a[x].id != a[y].id);
        } else {
            assert(a[y].id != a[x].id);
        }
    }
    a.lemma_multiset_has_no_duplicates();
    b.lemma_multiset_has_no_duplicates_conv();
    assert forall|j: int| 0 <= j < b.len() implies !#[trigger] repeats(b, j) by {
        if repeats(b, j) {
            let i = choose|i: int| 0 <= i < j && (#[trigger] b[i]).id == b[j].id;
            assert(b[i] != b[j]);
            assert(a.contains(b[i]) && a.contains(b[j]));
            let k1 = choose|k: int| 0 <= k < a.len() && a[k] == b[i];
            let k2 = choose|k: int| 0 <= k < a.len() && a[k] == b[j];
            if k1 < k2 {
                assert(a[k1].id != a[k2].id);
            } else if k2 < k1 {
                assert(a[k2].id != a[k1].id);
            }
        }
    }
    lemma_tasks_of_rearranged(a, b);
    lemma_task_order_total();
    tasks_of(a).lemma_sort_by_ensures(task_order());
    tasks_of(b).lemma_sort_by_ensures(task_order());
    lemma_sorted_unique(arranged(a), arranged(b), task_order());
}

/// Checks every job and the uniqueness of the identifiers, and hands the
/// jobs back as tasks in input order.
pub fn validate(jobs: &Vec<Job>) -> (r: Result<Vec<Task>, SimError>)
    ensures
        match rejection(jobs@) {
            Some(e) => r == Err::<Vec<Task>, SimError>(e),
            None => r matches Ok(tasks) && tasks@ == tasks_of(jobs@),
        },
{
    let n: usize = jobs.len();
    let mut tasks: Vec<Task> = Vec::new();
    let mut i: usize = 0;
    while i < n
        invariant
            i <= n,
            n == jobs@.len(),
            forall|k: int| 0 <= k < i ==> (#[trigger] jobs@[k]).defect() is None,
            tasks@ == tasks_of(jobs@.take(i as int)),
        decreases n - i,
    {
        match jobs[i].check() {
            Some(reason) => {
                proof {
                    lemma_first_defect(jobs@, i as int);
                }
                return Err(SimError::InvalidJob { id: jobs[i].id, reason });
            },
            None => {
                tasks.push(jobs[i].to_task());
                assert(jobs@.take(i + 1) =~= jobs@.take(i as int).push(jobs@[i as int]));
                assert(tasks@ =~= tasks_of(jobs@.take(i + 1)));
            },
        }
        i += 1;
    }
    assert(jobs@.take(n as int) =~= jobs@);
    let mut j: usize = 0;
    while j < n
        invariant
            j <= n,
            n == jobs@.len(),
            !has_defect(jobs@),
            forall|k: int| 0 <= k < j ==> !#[trigger] repeats(jobs@, k),
        decreases n - j,
    {
        let mut i: usize = 0;
        while i < j
            invariant
                i <= j < n,
                n == jobs@.len(),
                !has_defect(jobs@),
                forall|k: int| 0 <= k < j ==> !#[trigger] repeats(jobs@, k),
                forall|m: int| 0 <= m < i ==> (#[trigger] jobs@[m]).id != jobs@[j as int].id,
            decreases j - i,
        {
            if jobs[i].id == jobs[j].id {
                proof {
                    assert(repeats(jobs@, j as int));
                    lemma_first_repeat(jobs@, j as int);
                }
                return Err(SimError::DuplicateJobId { id: jobs[j].id });
            }
            i += 1;
        }
        j += 1;
    }
    Ok(tasks)
}

fn task_le_exec(a: &Task, b: &Task) -> (r: bool)
    ensures
        r == task_le(*a, *b),
{
    a.arrival < b.arrival || (a.arrival == b.arrival && (a.id < b.id || (a.id == b.id && a.burst
        <= b.burst)))
}

/// Puts tasks in order of (arrival, identifier).
pub fn arrange(tasks: &Vec<Task>) -> (out: Vec<Task>)
    ensures
        out@ == tasks@.sort_by(task_order()),
{
    let n: usize = tasks.len();
    let mut out: Vec<Task> = Vec::new();
    let mut i: usize = 0;
    proof {
        lemma_task_order_total();
        assert(out@ =~= tasks@.take(0));
    }
    while i < n
        invariant
            i <= n,
            n == tasks@.len(),
            out@.len() == i,
            sorted_by(out@, task_order()),
            out@.to_multiset() == tasks@.take(i as int).to_multiset(),
        decreases n - i,
    {
        let t = tasks[i];
        let m: usize = out.len();
        let mut p: usize = 0;
        while p < m && task_le_exec(&out[p], &t)
            invariant
                p <= m,
                m == out@.len(),
                forall|k: int| 0 <= k < p ==> task_le(#[trigger] out@[k], t),
            decreases m - p,
        {
            p += 1;
        }
        let ghost before = out@;
        out.insert(p, t);
        proof {
            broadcast use group_to_multiset_ensures;

            assert(tasks@.take(i + 1) =~= tasks@.take(i as int).push(t));
            assert forall|a: int, b: int| 0 <= a < b < out@.len() implies #[trigger] task_order()(
                out@[a],
                out@[b],
            ) by {
                let a0 = if a < p { a } else { a - 1 };
                let b0 = if b < p { b } else { b - 1 };
                if a != p && b != p {
                    assert(out@[a] == before[a0] && out@[b] == before[b0]);
                    assert(task_order()(before[a0], before[b0]));
                } else if a == p {
                    assert(out@[b] == before[b0]);
                    assert(task_le(t, before[p as int]));
                    if p as int != b0 {
                        assert(task_order()(before[p as int], before[b0]));
                    }
                    assert(task_le(t, before[b0]));
                } else {
                    assert(out@[a] == before[a0]);
                    assert(task_le(before[a0], t));
                }
            }
        }
        i += 1;
    }
    proof {
        assert(tasks@.take(n as int) =~= tasks@);
        tasks@.lemma_sort_by_ensures(task_order());
        lemma_sorted_unique(out@, tasks@.sort_by(task_order()), task_order());
    }
    out
}

} // verus!
