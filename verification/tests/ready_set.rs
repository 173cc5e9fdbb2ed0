use schedsim::job::PolicyConfig;
use schedsim::ready::{ReadyEntry, ReadySet};

const RR: PolicyConfig = PolicyConfig::RoundRobin { quantum: 2 };

fn filled(rows: &[(u64, u64, u64)]) -> ReadySet {
    let mut set = ReadySet::new();
    for &(id, arrival, remaining) in rows {
        set.enqueue(id, arrival, remaining, arrival);
    }
    set
}

#[test]
fn new_ready_set_is_empty() {
    let set = ReadySet::new();
    assert!(set.is_empty());
    assert_eq!(set.len(), 0);
    assert!(!set.contains(1));
    assert_eq!(set.get(1), None);
}

#[test]
fn pick_on_empty_set_is_none() {
    let set = ReadySet::new();
    for policy in [PolicyConfig::FCFS, PolicyConfig::SJN, PolicyConfig::SRT, RR] {
        assert_eq!(set.pick(0, &policy), None);
    }
}

#[test]
fn enqueue_inserts_with_enqueue_time() {
    let mut set = ReadySet::new();
    set.enqueue(4, 2, 9, 5);
    assert_eq!(set.len(), 1);
    assert!(set.contains(4));
    assert_eq!(set.get(4), Some(ReadyEntry { id: 4, arrival: 2, remaining: 9, enqueue_time: 5 }));
}

#[test]
fn enqueue_of_a_member_changes_nothing() {
    let mut set = ReadySet::new();
    set.enqueue(4, 2, 9, 5);
    set.enqueue(4, 3, 1, 8);
    assert_eq!(set.len(), 1);
    assert_eq!(set.get(4), Some(ReadyEntry { id: 4, arrival: 2, remaining: 9, enqueue_time: 5 }));
}

#[test]
fn remove_takes_the_job_out() {
    let mut set = filled(&[(1, 0, 5), (2, 1, 3), (3, 2, 8)]);
    set.remove(2);
    assert_eq!(set.len(), 2);
    assert!(!set.contains(2));
    assert!(set.contains(1) && set.contains(3));
    assert_eq!(set.pick(9, &RR), Some(1));
    set.remove(1);
    assert_eq!(set.pick(9, &RR), Some(3));
}

#[test]
fn remove_of_a_stranger_changes_nothing() {
    let mut set = filled(&[(1, 0, 5), (2, 1, 3)]);
    set.remove(7);
    assert_eq!(set.len(), 2);
    assert_eq!(set.pick(9, &RR), Some(1));
}

#[test]
fn fcfs_picks_earliest_arrival() {
    let set = filled(&[(1, 4, 1), (2, 2, 9), (3, 3, 5)]);
    assert_eq!(set.pick(9, &PolicyConfig::FCFS), Some(2));
}

#[test]
fn fcfs_breaks_ties_by_smaller_identifier() {
    let set = filled(&[(8, 2, 1), (3, 2, 9), (5, 2, 5)]);
    assert_eq!(set.pick(9, &PolicyConfig::FCFS), Some(3));
}

#[test]
fn sjn_picks_smallest_remaining() {
    let set = filled(&[(1, 0, 7), (2, 1, 4), (3, 2, 6)]);
    assert_eq!(set.pick(9, &PolicyConfig::SJN), Some(2));
}

#[test]
fn sjn_breaks_ties_by_arrival_then_identifier() {
    let set = filled(&[(9, 3, 4), (7, 1, 4), (2, 1, 4), (1, 0, 5)]);
    assert_eq!(set.pick(9, &PolicyConfig::SJN), Some(2));
    let set = filled(&[(9, 3, 4), (7, 1, 4), (2, 2, 4)]);
    assert_eq!(set.pick(9, &PolicyConfig::SJN), Some(7));
}

#[test]
fn srt_picks_smallest_remaining_right_now() {
    let mut set = filled(&[(1, 0, 8), (2, 1, 4)]);
    assert_eq!(set.pick(1, &PolicyConfig::SRT), Some(2));
    set.set_remaining(1, 3);
    assert_eq!(set.pick(1, &PolicyConfig::SRT), Some(1));
    set.set_remaining(1, 4);
    assert_eq!(set.pick(1, &PolicyConfig::SRT), Some(1));
}

#[test]
fn round_robin_picks_the_head() {
    let set = filled(&[(5, 3, 9), (1, 0, 1), (3, 1, 2)]);
    assert_eq!(set.pick(9, &RR), Some(5));
}

#[test]
fn pick_leaves_the_set_as_it_is() {
    let set = filled(&[(5, 3, 9), (1, 0, 1)]);
    assert_eq!(set.pick(9, &RR), Some(5));
    assert_eq!(set.pick(9, &RR), Some(5));
    assert_eq!(set.len(), 2);
}

#[test]
fn rotate_moves_the_job_to_the_tail() {
    let mut set = filled(&[(1, 0, 5), (2, 0, 3), (3, 0, 6)]);
    set.rotate(1, 2);
    assert_eq!(set.pick(2, &RR), Some(2));
    assert_eq!(set.get(1), Some(ReadyEntry { id: 1, arrival: 0, remaining: 5, enqueue_time: 2 }));
    set.rotate(2, 4);
    assert_eq!(set.pick(4, &RR), Some(3));
    set.rotate(3, 6);
    assert_eq!(set.pick(6, &RR), Some(1));
    assert_eq!(set.len(), 3);
}

#[test]
fn rotate_of_a_stranger_changes_nothing() {
    let mut set = filled(&[(1, 0, 5), (2, 0, 3)]);
    set.rotate(9, 2);
    assert_eq!(set.len(), 2);
    assert_eq!(set.pick(2, &RR), Some(1));
}

#[test]
fn rotate_of_the_only_member_keeps_it_at_the_head() {
    let mut set = filled(&[(1, 0, 5)]);
    set.rotate(1, 7);
    assert_eq!(set.pick(7, &RR), Some(1));
    assert_eq!(set.get(1), Some(ReadyEntry { id: 1, arrival: 0, remaining: 5, enqueue_time: 7 }));
}

#[test]
fn set_remaining_updates_only_that_member() {
    let mut set = filled(&[(1, 0, 5), (2, 1, 3)]);
    set.set_remaining(2, 1);
    assert_eq!(set.get(2), Some(ReadyEntry { id: 2, arrival: 1, remaining: 1, enqueue_time: 1 }));
    assert_eq!(set.get(1), Some(ReadyEntry { id: 1, arrival: 0, remaining: 5, enqueue_time: 0 }));
    set.set_remaining(9, 1);
    assert_eq!(set.len(), 2);
}
