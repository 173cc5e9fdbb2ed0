//! The inputs of a run: jobs, the policy, the limits, and the errors that
//! reject them.

use vstd::prelude::*;

verus! {

/// Why a job was turned away.
#[derive(Clone, Copy, Debug, PartialEq, Eq, Structural)]
pub enum InvalidReason {
    /// The burst is zero or negative.
    NonPositiveBurst,
    /// The arrival lies before tick zero.
    NegativeArrival,
}

/// The ways in which a run can fail. Each of them is final: no partial result
/// is produced.
#[derive(Clone, Copy, Debug, PartialEq, Eq, Structural)]
pub enum SimError {
    /// A policy parameter is out of range (a round-robin quantum of zero).
    InvalidConfig,
    /// A job has a non-positive burst or a negative arrival.
    InvalidJob { id: u64, reason: InvalidReason },
    /// Two jobs share an identifier.
    DuplicateJobId { id: u64 },
    /// More scheduling decisions were needed than the limits allow.
    StepLimitExceeded,
    /// Simulated time went past what the limits allow.
    TimeLimitExceeded,
}

/// A job as the caller describes it: one CPU burst that becomes eligible at
/// `arrival`. The priority is carried along but no policy reads it.
#[derive(Clone, Copy, Debug, PartialEq, Eq)]
pub struct Job {
    pub id: u64,
    pub arrival: i64,
    pub burst: i64,
    pub priority: Option<i32>,
}

/// A job that passed validation, with its times as ticks.
#[derive(Clone, Copy, Debug, PartialEq, Eq, Structural)]
pub struct Task {
    pub id: u64,
    pub arrival: u64,
    pub burst: u64,
}

/// The scheduling policy and its parameters.
#[derive(Clone, Copy, Debug, PartialEq, Eq, Structural)]
pub enum PolicyConfig {
    /// First come, first served.
    FCFS,
    /// Shortest job next, without preemption.
    SJN,
    /// Shortest remaining time, with preemption on arrivals.
    SRT,
    /// Round robin with a time slice of `quantum` ticks.
    RoundRobin { quantum: u64 },
}

/// Optional safeguards against runaway runs.
#[derive(Clone, Copy, Debug, PartialEq, Eq)]
pub struct Limits {
    /// Upper bound on the number of scheduling decisions.
    pub max_steps: Option<u64>,
    /// Upper bound on simulated time.
    pub max_ticks: Option<u64>,
}

impl Job {
    /// What is wrong with this job, if anything. A bad burst is reported
    /// before a bad arrival.
    pub open spec fn defect(self) -> Option<InvalidReason> {
        if self.burst <= 0 {
            Some(InvalidReason::NonPositiveBurst)
        } else if self.arrival < 0 {
            Some(InvalidReason::NegativeArrival)
        } else {
            None
        }
    }

    /// The validated form of this job. Meaningful where `defect` is `None`.
    pub open spec fn task(self) -> Task {
        Task { id: self.id, arrival: self.arrival as u64, burst: self.burst as u64 }
    }

    pub fn new(id: u64, arrival: i64, burst: i64) -> (job: Job)
        ensures
            job == (Job { id, arrival, burst, priority: None }),
    {
        Job { id, arrival, burst, priority: None }
    }

    pub fn with_priority(self, priority: i32) -> (job: Job)
        ensures
            job == (Job { priority: Some(priority), ..self }),
    {
        Job { id: self.id, arrival: self.arrival, burst: self.burst, priority: Some(priority) }
    }

    /// Checks the job's own invariant: a positive burst and a non-negative
    /// arrival.
    pub fn check(&self) -> (r: Option<InvalidReason>)
        ensures
            r == self.defect(),
    {
        if self.burst <= 0 {
            Some(InvalidReason::NonPositiveBurst)
        } else if self.arrival < 0 {
            Some(InvalidReason::NegativeArrival)
        } else {
            None
        }
    }

    /// Turns a job without defect into a task.
    pub fn to_task(&self) -> (t: Task)
        requires
            self.defect() is None,
        ensures
            t == self.task(),
            t.arrival == self.arrival,
            t.burst == self.burst,
            t.burst >= 1,
    {
        Task { id: self.id, arrival: self.arrival as u64, burst: self.burst as u64 }
    }
}

impl PolicyConfig {
    /// The parameters are in range: a round-robin quantum is at least one tick.
    pub open spec fn valid(self) -> bool {
        match self {
            PolicyConfig::RoundRobin { quantum } => quantum >= 1,
            _ => true,
        }
    }

    pub fn is_valid(&self) -> (r: bool)
        ensures
            r == self.valid(),
    {
        match self {
            PolicyConfig::RoundRobin { quantum } => *quantum >= 1,
            _ => true,
        }
    }
}

impl Limits {
    /// No safeguard at all: only the width of the tick counter bounds a run.
    pub fn none() -> (l: Limits)
        ensures
            l == (Limits { max_steps: None, max_ticks: None }),
    {
        Limits { max_steps: None, max_ticks: None }
    }

    /// The last tick a run may reach: the configured bound, or the largest
    /// tick the counter can hold.
    pub open spec fn tick_bound(self) -> int {
        match self.max_ticks {
            Some(t) => t as int,
            None => u64::MAX as int,
        }
    }

    /// Whether a run may still be going after `k` scheduling decisions.
    pub open spec fn allows_steps(self, k: int) -> bool {
        match self.max_steps {
            Some(l) => k <= l,
            None => true,
        }
    }

    pub fn last_tick(&self) -> (t: u64)
        ensures
            t == self.tick_bound(),
    {
        match self.max_ticks {
            Some(t) => t,
            None => u64::MAX,
        }
    }
}

} // verus!
