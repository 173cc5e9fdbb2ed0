//! The ready set: the jobs that have arrived and not yet finished, kept in the
//! order in which they entered, together with the rule that names the next
//! job to run under each policy.

use vstd::prelude::*;
use crate::job::PolicyConfig;

verus! {

/// One member of the ready set.
#[derive(Clone, Copy, Debug, PartialEq, Eq, Structural)]
pub struct ReadyEntry {
    pub id: u64,
    pub arrival: u64,
    /// Ticks of burst still to execute.
    pub remaining: u64,
    /// The tick at which the job last entered the queue.
    pub enqueue_time: u64,
}

/// `a` arrived no later than `b`; on equal arrival the smaller identifier
/// comes first.
pub open spec fn earlier(a: ReadyEntry, b: ReadyEntry) -> bool {
    a.arrival < b.arrival || (a.arrival == b.arrival && a.id <= b.id)
}

/// `a` has no more left to run than `b`; ties go to the earlier arrival, then
/// to the smaller identifier.
pub open spec fn shorter(a: ReadyEntry, b: ReadyEntry) -> bool {
    a.remaining < b.remaining || (a.remaining == b.remaining && earlier(a, b))
}

/// Under `policy`, `a` is to run no later than `b`. Round robin ranks by
/// position in the queue alone, so every pair passes here.
pub open spec fn outranks(policy: PolicyConfig, a: ReadyEntry, b: ReadyEntry) -> bool {
    match policy {
        PolicyConfig::FCFS => earlier(a, b),
        PolicyConfig::SJN => shorter(a, b),
        PolicyConfig::SRT => shorter(a, b),
        PolicyConfig::RoundRobin { .. } => true,
    }
}

/// Position `k` holds the job that `policy` runs next: the head of the queue
/// under round robin, else the member that outranks all others.
pub open spec fn is_choice(q: Seq<ReadyEntry>, policy: PolicyConfig, k: int) -> bool {
    &&& 0 <= k < q.len()
    &&& policy is RoundRobin ==> k == 0
    &&& forall|m: int| 0 <= m < q.len() ==> outranks(policy, q[k], #[trigger] q[m])
}

/// The position of the job to run next. Meaningful for a non-empty queue.
pub open spec fn choice(q: Seq<ReadyEntry>, policy: PolicyConfig) -> int {
    choose|k: int| is_choice(q, policy, k)
}

/// No two members share an identifier.
pub open spec fn distinct_ids(q: Seq<ReadyEntry>) -> bool {
    forall|a: int, b: int| 0 <= a < b < q.len() ==> (#[trigger] q[a]).id != (#[trigger] q[b]).id
}

/// Some member carries this identifier.
pub open spec fn holds(q: Seq<ReadyEntry>, id: u64) -> bool {
    exists|k: int| 0 <= k < q.len() && (#[trigger] q[k]).id == id
}

/// The position of the member with this identifier. Meaningful where `holds`.
pub open spec fn slot(q: Seq<ReadyEntry>, id: u64) -> int {
    choose|k: int| 0 <= k < q.len() && (#[trigger] q[k]).id == id
}

/// With distinct identifiers, a member's position is the one `slot` names.
pub proof fn lemma_slot(q: Seq<ReadyEntry>, id: u64, k: int)
    requires
        distinct_ids(q),
        0 <= k < q.len(),
        q[k].id == id,
    ensures
        holds(q, id),
        slot(q, id) == k,
{
    let s = slot(q, id);
    assert(0 <= s < q.len() && q[s].id == id);
    if s < k {
        assert(q[s].id != q[k].id);
    } else if k < s {
        assert(q[k].id != q[s].id);
    }
}

/// With distinct identifiers, at most one position is the choice.
pub proof fn lemma_choice_unique(q: Seq<ReadyEntry>, policy: PolicyConfig, k1: int, k2: int)
    requires
        distinct_ids(q),
        is_choice(q, policy, k1),
        is_choice(q, policy, k2),
    ensures
        k1 == k2,
{
    assert(outranks(policy, q[k1], q[k2]));
    assert(outranks(policy, q[k2], q[k1]));
    if k1 < k2 {
        assert(q[k1].id != q[k2].id);
    } else if k2 < k1 {
        assert(q[k2].id != q[k1].id);
    }
}

/// Among the first `n` members one outranks the others.
proof fn lemma_best_of_prefix(q: Seq<ReadyEntry>, policy: PolicyConfig, n: int) -> (k: int)
    requires
        0 < n <= q.len(),
    ensures
        0 <= k < n,
        policy is RoundRobin ==> k == 0,
        forall|m: int| 0 <= m < n ==> outranks(policy, q[k], #[trigger] q[m]),
    decreases n,
{
    if n == 1 || policy is RoundRobin {
        0
    } else {
        let b = lemma_best_of_prefix(q, policy, n - 1);
        if outranks(policy, q[b], q[n - 1]) {
            b
        } else {
            n - 1
        }
    }
}

/// Every non-empty queue has a choice, and `choice` names it.
pub proof fn lemma_choice_exists(q: Seq<ReadyEntry>, policy: PolicyConfig)
    requires
        q.len() > 0,
    ensures
        is_choice(q, policy, choice(q, policy)),
{
    let k = lemma_best_of_prefix(q, policy, q.len() as int);
    assert(is_choice(q, policy, k));
}

fn outranks_exec(policy: &PolicyConfig, a: &ReadyEntry, b: &ReadyEntry) -> (r: bool)
    ensures
        r == outranks(*policy, *a, *b),
{
    let by_arrival = a.arrival < b.arrival || (a.arrival == b.arrival && a.id <= b.id);
    match policy {
        PolicyConfig::FCFS => by_arrival,
        PolicyConfig::SJN => a.remaining < b.remaining || (a.remaining == b.remaining
            && by_arrival),
        PolicyConfig::SRT => a.remaining < b.remaining || (a.remaining == b.remaining
            && by_arrival),
        PolicyConfig::RoundRobin { .. } => true,
    }
}

/// The set of jobs that are ready to run, in the order in which they entered.
pub struct ReadySet {
    entries: Vec<ReadyEntry>,
}

impl View for ReadySet {
    type V = Seq<ReadyEntry>;

    closed spec fn view(&self) -> Seq<ReadyEntry> {
        self.entries@
    }
}

impl ReadySet {
    /// The invariant of the set: identifiers are unique.
    pub open spec fn wf(&self) -> bool {
        distinct_ids(self@)
    }

    pub fn new() -> (set: ReadySet)
        ensures
            set@ == Seq::<ReadyEntry>::empty(),
            set.wf(),
    {
        ReadySet { entries: Vec::new() }
    }

    pub fn len(&self) -> (n: usize)
        ensures
            n == self@.len(),
    {
        self.entries.len()
    }

    pub fn is_empty(&self) -> (r: bool)
        ensures
            r == (self@.len() == 0),
    {
        self.entries.len() == 0
    }

    /// The position of the member with this identifier.
    fn find(&self, id: u64) -> (r: Option<usize>)
        ensures
            match r {
                Some(k) => k < self@.len() && self@[k as int].id == id,
                None => !holds(self@, id),
            },
    {
        let n: usize = self.entries.len();
        let mut k: usize = 0;
        while k < n
            invariant
                k <= n,
                n == self.entries@.len(),
                forall|m: int| 0 <= m < k ==> (#[trigger] self.entries@[m]).id != id,
            decreases n - k,
        {
            if self.entries[k].id == id {
                return Some(k);
            }
            k += 1;
        }
        None
    }

    pub fn contains(&self, id: u64) -> (r: bool)
        ensures
            r == holds(self@, id),
    {
        self.find(id).is_some()
    }

    /// The member with this identifier, if there is one.
    pub fn get(&self, id: u64) -> (r: Option<ReadyEntry>)
        requires
            self.wf(),
        ensures
            r == if holds(self@, id) {
                Some(self@[slot(self@, id)])
            } else {
                None
            },
    {
        match self.find(id) {
            Some(k) => {
                proof {
                    lemma_slot(self@, id, k as int);
                }
                Some(self.entries[k])
            },
            None => None,
        }
    }

    /// Inserts an arrived job at the tail, entering the queue at `now`.
    /// Nothing changes if the job is already a member.
    pub fn enqueue(&mut self, id: u64, arrival: u64, remaining: u64, now: u64)
        requires
            old(self).wf(),
        ensures
            final(self).wf(),
            final(self)@ == if holds(old(self)@, id) {
                old(self)@
            } else {
                old(self)@.push(ReadyEntry { id, arrival, remaining, enqueue_time: now })
            },
    {
        match self.find(id) {
            Some(_) => {},
            None => {
                self.entries.push(ReadyEntry { id, arrival, remaining, enqueue_time: now });
                assert forall|a: int, b: int| 0 <= a < b < self@.len() implies (
                #[trigger] self@[a]).id != (#[trigger] self@[b]).id by {
                    assert(self@[a] == old(self)@[a]);
                    if b < old(self)@.len() {
                        assert(self@[b] == old(self)@[b]);
                    }
                }
            },
        }
    }

    /// Takes a job out of the set. Nothing changes if it is not a member.
    pub fn remove(&mut self, id: u64)
        requires
            old(self).wf(),
        ensures
            final(self).wf(),
            final(self)@ == if holds(old(self)@, id) {
                old(self)@.remove(slot(old(self)@, id))
            } else {
                old(self)@
            },
    {
        match self.find(id) {
            Some(k) => {
                proof {
                    lemma_slot(self@, id, k as int);
                }
                self.entries.remove(k);
                assert forall|a: int, b: int| 0 <= a < b < self@.len() implies (
                #[trigger] self@[a]).id != (#[trigger] self@[b]).id by {
                    let a0 = if a < k { a } else { a + 1 };
                    let b0 = if b < k { b } else { b + 1 };
                    assert(self@[a] == old(self)@[a0]);
                    assert(self@[b] == old(self)@[b0]);
                }
            },
            None => {},
        }
    }

    /// Moves a member to the tail of the queue, entering it anew at `now`.
    /// Nothing changes if the job is not a member.
    pub fn rotate(&mut self, id: u64, now: u64)
        requires
            old(self).wf(),
        ensures
            final(self).wf(),
            final(self)@ == if holds(old(self)@, id) {
                old(self)@.remove(slot(old(self)@, id)).push(
                    ReadyEntry { enqueue_time: now, ..old(self)@[slot(old(self)@, id)] },
                )
            } else {
                old(self)@
            },
    {
        match self.find(id) {
            Some(k) => {
                proof {
                    lemma_slot(self@, id, k as int);
                }
                let e = self.entries.remove(k);
                self.entries.push(
                    ReadyEntry {
                        id: e.id,
                        arrival: e.arrival,
                        remaining: e.remaining,
                        enqueue_time: now,
                    },
                );
                assert forall|a: int, b: int| 0 <= a < b < self@.len() implies (
                #[trigger] self@[a]).id != (#[trigger] self@[b]).id by {
                    let a0 = if a < k { a } else { a + 1 };
                    assert(self@[a].id == old(self)@[a0].id);
                    if b < self@.len() - 1 {
                        let b0 = if b < k { b } else { b + 1 };
                        assert(self@[b].id == old(self)@[b0].id);
                    } else {
                        assert(self@[b].id == old(self)@[k as int].id);
                        if a0 < k {
                            assert(old(self)@[a0].id != old(self)@[k as int].id);
                        } else {
                            assert(old(self)@[k as int].id != old(self)@[a0].id);
                        }
                    }
                }
            },
            None => {},
        }
    }

    /// Records how much a member still has to run. Nothing changes if the
    /// job is not a member.
    pub fn set_remaining(&mut self, id: u64, remaining: u64)
        requires
            old(self).wf(),
        ensures
            final(self).wf(),
            final(self)@ == if holds(old(self)@, id) {
                old(self)@.update(
                    slot(old(self)@, id),
                    ReadyEntry { remaining, ..old(self)@[slot(old(self)@, id)] },
                )
            } else {
                old(self)@
            },
    {
        match self.find(id) {
            Some(k) => {
                proof {
                    lemma_slot(self@, id, k as int);
                }
                let e = self.entries[k];
                self.entries.set(
                    k,
                    ReadyEntry {
                        id: e.id,
                        arrival: e.arrival,
                        remaining,
                        enqueue_time: e.enqueue_time,
                    },
                );
                assert forall|a: int, b: int| 0 <= a < b < self@.len() implies (
                #[trigger] self@[a]).id != (#[trigger] self@[b]).id by {
                    assert(self@[a].id == old(self)@[a].id);
                    assert(self@[b].id == old(self)@[b].id);
                }
            },
            None => {},
        }
    }

    /// Names the job that holds the CPU next under `policy`, or `None` for an
    /// empty set. The set itself is left as it is. No rule reads the clock:
    /// `now` is taken so that all operations of the set are called alike.
    #[allow(unused_variables)]
    pub fn pick(&self, now: u64, policy: &PolicyConfig) -> (r: Option<u64>)
        requires
            self.wf(),
        ensures
            self@.len() == 0 ==> r is None,
            self@.len() > 0 ==> is_choice(self@, *policy, choice(self@, *policy)) && r == Some(
                self@[choice(self@, *policy)].id,
            ),
    {
        let n: usize = self.entries.len();
        if n == 0 {
            return None;
        }
        let mut best: usize = 0;
        let positional = match policy {
            PolicyConfig::RoundRobin { .. } => true,
            _ => false,
        };
        if !positional {
            let mut i: usize = 1;
            while i < n
                invariant
                    1 <= i <= n,
                    best < i,
                    n == self.entries@.len(),
                    !(*policy is RoundRobin),
                    forall|m: int|
                        0 <= m < i ==> outranks(
                            *policy,
                            self.entries@[best as int],
                            #[trigger] self.entries@[m],
                        ),
                decreases n - i,
            {
                if !outranks_exec(policy, &self.entries[best], &self.entries[i]) {
                    best = i;
                }
                i += 1;
            }
        }
        proof {
            assert(is_choice(self@, *policy, best as int));
            lemma_choice_unique(self@, *policy, best as int, choice(self@, *policy));
        }
        Some(self.entries[best].id)
    }
}

} // verus!
