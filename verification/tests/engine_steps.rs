use schedsim::driver::{run_to_end, simulate};
use schedsim::engine::{RunState, Simulation};
use schedsim::job::{InvalidReason, Job, Limits, PolicyConfig, SimError, Task};
use schedsim::trace::{Label, TraceSegment};

fn jobs(rows: &[(u64, i64, i64)]) -> Vec<Job> {
    rows.iter().map(|&(id, arrival, burst)| Job::new(id, arrival, burst)).collect()
}

fn begin(rows: &[(u64, i64, i64)], policy: PolicyConfig) -> Simulation {
    match Simulation::begin(&jobs(rows), policy) {
        Ok(sim) => sim,
        Err(e) => panic!("unexpected error: {:?}", e),
    }
}

fn run_seg(id: u64, start: u64, end: u64) -> TraceSegment {
    TraceSegment { start, end, label: Label::Job(id) }
}

fn untouched(burst: u64) -> RunState {
    RunState { remaining: burst, first_start: None, completion: None, enqueue_time: 0 }
}

#[test]
fn begin_fails_as_simulate_does() {
    let e = Simulation::begin(&jobs(&[(1, 0, 1)]), PolicyConfig::RoundRobin { quantum: 0 }).err();
    assert_eq!(e, Some(SimError::InvalidConfig));
    let e = Simulation::begin(&jobs(&[(1, 0, 1), (2, -1, 1)]), PolicyConfig::FCFS).err();
    assert_eq!(e, Some(SimError::InvalidJob { id: 2, reason: InvalidReason::NegativeArrival }));
    let e = Simulation::begin(&jobs(&[(1, 0, 1), (1, 1, 1)]), PolicyConfig::FCFS).err();
    assert_eq!(e, Some(SimError::DuplicateJobId { id: 1 }));
}

#[test]
fn begin_arranges_the_tasks() {
    let sim = begin(&[(3, 2, 8), (2, 1, 3), (1, 1, 5)], PolicyConfig::FCFS);
    assert_eq!(
        sim.task_list(),
        &vec![
            Task { id: 1, arrival: 1, burst: 5 },
            Task { id: 2, arrival: 1, burst: 3 },
            Task { id: 3, arrival: 2, burst: 8 },
        ]
    );
    assert_eq!(sim.now(), 0);
    assert!(sim.trace().is_empty());
    assert!(!sim.is_finished());
    assert_eq!(sim.run_states(), &vec![untouched(5), untouched(3), untouched(8)]);
}

#[test]
fn new_takes_arranged_tasks() {
    let tasks = vec![Task { id: 1, arrival: 0, burst: 2 }, Task { id: 2, arrival: 5, burst: 3 }];
    let sim = Simulation::new(tasks.clone(), PolicyConfig::SJN);
    assert_eq!(sim.task_list(), &tasks);
    assert_eq!(sim.now(), 0);
    assert!(!sim.is_finished());
}

#[test]
fn a_run_of_nothing_is_finished_at_once() {
    let mut sim = begin(&[], PolicyConfig::SRT);
    assert!(sim.is_finished());
    assert_eq!(sim.advance(u64::MAX), Ok(()));
    assert!(sim.is_finished());
    assert_eq!(sim.now(), 0);
    assert!(sim.trace().is_empty());
}

#[test]
fn advance_takes_one_decision_at_a_time() {
    let rows = [(1, 0, 5), (2, 0, 3), (3, 0, 6)];
    let mut sim = begin(&rows, PolicyConfig::RoundRobin { quantum: 2 });
    let expected = [
        (1, 0, 2),
        (2, 2, 4),
        (3, 4, 6),
        (1, 6, 8),
        (2, 8, 9),
        (3, 9, 11),
        (1, 11, 12),
        (3, 12, 14),
    ];
    for (k, &(id, start, end)) in expected.iter().enumerate() {
        assert!(!sim.is_finished());
        assert_eq!(sim.now(), start);
        assert_eq!(sim.advance(u64::MAX), Ok(()));
        assert_eq!(sim.now(), end);
        assert_eq!(sim.trace().len(), k + 1);
        assert_eq!(sim.trace()[k], run_seg(id, start, end));
    }
    assert!(sim.is_finished());
    let done: Vec<Option<u64>> = sim.run_states().iter().map(|r| r.completion).collect();
    assert_eq!(done, vec![Some(12), Some(9), Some(14)]);
    let first: Vec<Option<u64>> = sim.run_states().iter().map(|r| r.first_start).collect();
    assert_eq!(first, vec![Some(0), Some(2), Some(4)]);
}

#[test]
fn advance_idles_until_the_next_arrival() {
    let mut sim = begin(&[(1, 3, 2)], PolicyConfig::FCFS);
    assert_eq!(sim.advance(u64::MAX), Ok(()));
    assert_eq!(sim.now(), 3);
    assert_eq!(sim.trace(), &vec![TraceSegment { start: 0, end: 3, label: Label::Idle }]);
    assert_eq!(sim.advance(u64::MAX), Ok(()));
    assert_eq!(sim.now(), 5);
    assert!(sim.is_finished());
    assert_eq!(
        sim.run_states(),
        &vec![RunState {
            remaining: 0,
            first_start: Some(3),
            completion: Some(5),
            enqueue_time: 3,
        }]
    );
}

#[test]
fn advance_past_the_last_tick_changes_nothing() {
    let mut sim = begin(&[(1, 0, 5), (2, 1, 3)], PolicyConfig::FCFS);
    assert_eq!(sim.advance(4), Err(SimError::TimeLimitExceeded));
    assert_eq!(sim.now(), 0);
    assert!(sim.trace().is_empty());
    assert_eq!(sim.run_states()[0], untouched(5));
    assert_eq!(sim.advance(5), Ok(()));
    assert_eq!(sim.now(), 5);
    assert_eq!(sim.advance(7), Err(SimError::TimeLimitExceeded));
    assert_eq!(sim.now(), 5);
    assert_eq!(sim.trace(), &vec![run_seg(1, 0, 5)]);
    assert_eq!(sim.advance(8), Ok(()));
    assert!(sim.is_finished());
}

#[test]
fn advance_on_a_finished_run_is_a_no_op() {
    let mut sim = begin(&[(1, 0, 5)], PolicyConfig::FCFS);
    assert_eq!(sim.advance(u64::MAX), Ok(()));
    assert!(sim.is_finished());
    let trace = sim.trace().clone();
    let states = sim.run_states().clone();
    assert_eq!(sim.advance(u64::MAX), Ok(()));
    assert_eq!(sim.now(), 5);
    assert_eq!(sim.trace(), &trace);
    assert_eq!(sim.run_states(), &states);
    assert_eq!(sim.advance(4), Err(SimError::TimeLimitExceeded));
    assert_eq!(sim.now(), 5);
}

#[test]
fn preempted_job_keeps_its_first_start() {
    let mut sim = begin(&[(1, 0, 8), (2, 1, 4), (3, 2, 2)], PolicyConfig::SRT);
    while !sim.is_finished() {
        assert_eq!(sim.advance(u64::MAX), Ok(()));
    }
    let states = sim.run_states();
    assert_eq!(states[0].first_start, Some(0));
    assert_eq!(states[0].completion, Some(14));
    assert_eq!(states[1].first_start, Some(1));
    assert_eq!(states[1].completion, Some(7));
    assert_eq!(states[2].first_start, Some(2));
    assert_eq!(states[2].completion, Some(4));
}

#[test]
fn srt_keeps_the_runner_when_the_arrival_is_not_shorter() {
    let mut sim = begin(&[(1, 0, 4), (2, 1, 9), (3, 2, 2)], PolicyConfig::SRT);
    let mut decisions = 0;
    while !sim.is_finished() {
        assert_eq!(sim.advance(u64::MAX), Ok(()));
        decisions += 1;
    }
    assert_eq!(decisions, 5);
    assert_eq!(sim.trace(), &vec![run_seg(1, 0, 4), run_seg(3, 4, 6), run_seg(2, 6, 15)]);
}

#[test]
fn expired_job_requeues_ahead_of_arrivals_during_its_slice() {
    let rows = [(1, 0, 10), (2, 1, 1)];
    let policy = PolicyConfig::RoundRobin { quantum: 2 };
    let result = match simulate(&jobs(&rows), policy, Limits::none()) {
        Ok(r) => r,
        Err(e) => panic!("unexpected error: {:?}", e),
    };
    assert_eq!(result.trace(), &vec![run_seg(1, 0, 4), run_seg(2, 4, 5), run_seg(1, 5, 11)]);
}

#[test]
fn arrivals_enter_the_queue_in_order_of_arrival_then_identifier() {
    let rows = [(1, 0, 6), (9, 5, 2), (4, 3, 2), (3, 3, 2)];
    let policy = PolicyConfig::RoundRobin { quantum: 6 };
    let result = match simulate(&jobs(&rows), policy, Limits::none()) {
        Ok(r) => r,
        Err(e) => panic!("unexpected error: {:?}", e),
    };
    assert_eq!(
        result.trace(),
        &vec![run_seg(1, 0, 6), run_seg(3, 6, 8), run_seg(4, 8, 10), run_seg(9, 10, 12)]
    );
}

#[test]
fn finish_hands_out_the_parts() {
    let mut sim = begin(&[(2, 0, 1), (1, 0, 2)], PolicyConfig::FCFS);
    while !sim.is_finished() {
        assert_eq!(sim.advance(u64::MAX), Ok(()));
    }
    let (tasks, run, trace) = sim.finish();
    assert_eq!(
        tasks,
        vec![Task { id: 1, arrival: 0, burst: 2 }, Task { id: 2, arrival: 0, burst: 1 }]
    );
    assert_eq!(run.iter().map(|r| r.completion).collect::<Vec<_>>(), vec![Some(2), Some(3)]);
    assert_eq!(trace, vec![run_seg(1, 0, 2), run_seg(2, 2, 3)]);
}

#[test]
fn run_to_end_agrees_with_simulate() {
    let rows = [(1, 0, 7), (2, 2, 4), (3, 4, 1), (4, 5, 4)];
    let tasks: Vec<Task> = rows
        .iter()
        .map(|&(id, arrival, burst)| Task { id, arrival: arrival as u64, burst: burst as u64 })
        .collect();
    for policy in [
        PolicyConfig::FCFS,
        PolicyConfig::SJN,
        PolicyConfig::SRT,
        PolicyConfig::RoundRobin { quantum: 3 },
    ] {
        let whole = simulate(&jobs(&rows), policy, Limits::none()).ok().unwrap();
        let by_tasks =
            run_to_end(Simulation::new(tasks.clone(), policy), Limits::none()).ok().unwrap();
        let by_steps = run_to_end(begin(&rows, policy), Limits::none()).ok().unwrap();
        assert_eq!(whole.trace(), by_tasks.trace());
        assert_eq!(whole.metrics(), by_tasks.metrics());
        assert_eq!(whole.aggregate(), by_tasks.aggregate());
        assert_eq!(whole.trace(), by_steps.trace());
        assert_eq!(whole.metrics(), by_steps.metrics());
        assert_eq!(whole.aggregate(), by_steps.aggregate());
    }
}

#[test]
fn metrics_table_is_in_order_of_arrival_then_identifier() {
    let rows = [(3, 2, 8), (2, 1, 3), (1, 1, 5), (7, 0, 1)];
    let result = simulate(&jobs(&rows), PolicyConfig::SJN, Limits::none()).ok().unwrap();
    let ids: Vec<u64> = result.metrics().iter().map(|m| m.id).collect();
    assert_eq!(ids, vec![7, 1, 2, 3]);
    assert_eq!(result.metrics_for(2).map(|m| m.burst), Some(3));
    assert_eq!(result.metrics_for(8), None);
}
