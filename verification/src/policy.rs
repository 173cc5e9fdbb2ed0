//! The four policies by name: the menu that a front end offers, and the only
//! names that are accepted back from it.

use vstd::prelude::*;
use vstd::string::*;
use crate::job::PolicyConfig;

verus! {

/// A policy without its parameters.
#[derive(Clone, Copy, Debug, PartialEq, Eq, Structural)]
pub enum PolicyKind {
    FCFS,
    SJN,
    SRT,
    RoundRobin,
}

/// The name under which a policy is offered.
pub open spec fn kind_name(kind: PolicyKind) -> Seq<char> {
    match kind {
        PolicyKind::FCFS => "First Come First Serve (FCFS)"@,
        PolicyKind::SJN => "Shortest Job Next (SJN)"@,
        PolicyKind::SRT => "Shortest Remaining Time (SRN)"@,
        PolicyKind::RoundRobin => "Round Robin"@,
    }
}

/// The policy that a name stands for. Only the four names of `kind_name` are
/// accepted, letter for letter.
pub open spec fn kind_named(name: Seq<char>) -> Option<PolicyKind> {
    if name == kind_name(PolicyKind::FCFS) {
        Some(PolicyKind::FCFS)
    } else if name == kind_name(PolicyKind::SJN) {
        Some(PolicyKind::SJN)
    } else if name == kind_name(PolicyKind::SRT) {
        Some(PolicyKind::SRT)
    } else if name == kind_name(PolicyKind::RoundRobin) {
        Some(PolicyKind::RoundRobin)
    } else {
        None
    }
}

/// The policy with its parameters. The quantum is read by round robin only.
pub open spec fn configured(kind: PolicyKind, quantum: u64) -> PolicyConfig {
    match kind {
        PolicyKind::FCFS => PolicyConfig::FCFS,
        PolicyKind::SJN => PolicyConfig::SJN,
        PolicyKind::SRT => PolicyConfig::SRT,
        PolicyKind::RoundRobin => PolicyConfig::RoundRobin { quantum },
    }
}

/// The kind of a configured policy.
pub open spec fn kind_of(policy: PolicyConfig) -> PolicyKind {
    match policy {
        PolicyConfig::FCFS => PolicyKind::FCFS,
        PolicyConfig::SJN => PolicyKind::SJN,
        PolicyConfig::SRT => PolicyKind::SRT,
        PolicyConfig::RoundRobin { .. } => PolicyKind::RoundRobin,
    }
}

/// Every policy is found again under its own name.
pub proof fn law_name_round_trip(kind: PolicyKind)
    ensures
        kind_named(kind_name(kind)) == Some(kind),
{
    reveal_strlit("First Come First Serve (FCFS)");
    reveal_strlit("Shortest Job Next (SJN)");
    reveal_strlit("Shortest Remaining Time (SRN)");
    reveal_strlit("Round Robin");
    assert("First Come First Serve (FCFS)"@.len() == 29);
    assert("Shortest Job Next (SJN)"@.len() == 23);
    assert("Shortest Remaining Time (SRN)"@.len() == 29);
    assert("Round Robin"@.len() == 11);
    assert("First Come First Serve (FCFS)"@[0] == 'F');
    assert("Shortest Remaining Time (SRN)"@[0] == 'S');
}

/// Whether two texts are the same, character for character.
pub fn same_text(a: &str, b: &str) -> (r: bool)
    ensures
        r == (a@ == b@),
{
    let n: usize = a.unicode_len();
    if n != b.unicode_len() {
        return false;
    }
    let mut i: usize = 0;
    while i < n
        invariant
            i <= n,
            n == a@.len(),
            n == b@.len(),
            forall|k: int| 0 <= k < i ==> a@[k] == b@[k],
        decreases n - i,
    {
        if a.get_char(i) != b.get_char(i) {
            return false;
        }
        i += 1;
    }
    assert(a@ =~= b@);
    true
}

impl PolicyKind {
    /// The name under which this policy is offered.
    pub fn name(&self) -> (s: &'static str)
        ensures
            s@ == kind_name(*self),
    {
        match self {
            PolicyKind::FCFS => "First Come First Serve (FCFS)",
            PolicyKind::SJN => "Shortest Job Next (SJN)",
            PolicyKind::SRT => "Shortest Remaining Time (SRN)",
            PolicyKind::RoundRobin => "Round Robin",
        }
    }

    /// The policy that `name` stands for, or `None` for any text that is not
    /// one of the four names.
    pub fn from_name(name: &str) -> (r: Option<PolicyKind>)
        ensures
            r == kind_named(name@),
    {
        if same_text(name, PolicyKind::FCFS.name()) {
            Some(PolicyKind::FCFS)
        } else if same_text(name, PolicyKind::SJN.name()) {
            Some(PolicyKind::SJN)
        } else if same_text(name, PolicyKind::SRT.name()) {
            Some(PolicyKind::SRT)
        } else if same_text(name, PolicyKind::RoundRobin.name()) {
            Some(PolicyKind::RoundRobin)
        } else {
            None
        }
    }

    /// The four policies in the order of the menu.
    pub fn all() -> (kinds: Vec<PolicyKind>)
        ensures
            kinds@ == seq![
                PolicyKind::FCFS,
                PolicyKind::SJN,
                PolicyKind::SRT,
                PolicyKind::RoundRobin,
            ],
    {
        let mut kinds: Vec<PolicyKind> = Vec::new();
        kinds.push(PolicyKind::FCFS);
        kinds.push(PolicyKind::SJN);
        kinds.push(PolicyKind::SRT);
        kinds.push(PolicyKind::RoundRobin);
        assert(kinds@ =~= seq![
            PolicyKind::FCFS,
            PolicyKind::SJN,
            PolicyKind::SRT,
            PolicyKind::RoundRobin,
        ]);
        kinds
    }

    /// This policy with its parameters. The quantum is read by round robin
    /// only.
    pub fn configure(self, quantum: u64) -> (policy: PolicyConfig)
        ensures
            policy == configured(self, quantum),
    {
        match self {
            PolicyKind::FCFS => PolicyConfig::FCFS,
            PolicyKind::SJN => PolicyConfig::SJN,
            PolicyKind::SRT => PolicyConfig::SRT,
            PolicyKind::RoundRobin => PolicyConfig::RoundRobin { quantum },
        }
    }
}

impl PolicyConfig {
    /// The policy without its parameters.
    pub fn kind(&self) -> (k: PolicyKind)
        ensures
            k == kind_of(*self),
    {
        match self {
            PolicyConfig::FCFS => PolicyKind::FCFS,
            PolicyConfig::SJN => PolicyKind::SJN,
            PolicyConfig::SRT => PolicyKind::SRT,
            PolicyConfig::RoundRobin { .. } => PolicyKind::RoundRobin,
        }
    }
}

} // verus!
