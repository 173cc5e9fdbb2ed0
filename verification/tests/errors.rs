use schedsim::driver::simulate;
use schedsim::job::{InvalidReason, Job, Limits, PolicyConfig, SimError};

fn jobs(rows: &[(u64, i64, i64)]) -> Vec<Job> {
    rows.iter().map(|&(id, arrival, burst)| Job::new(id, arrival, burst)).collect()
}

fn error_of(rows: &[(u64, i64, i64)], policy: PolicyConfig, limits: Limits) -> SimError {
    match simulate(&jobs(rows), policy, limits) {
        Ok(_) => panic!("the run was expected to fail"),
        Err(e) => e,
    }
}

fn steps(max_steps: u64) -> Limits {
    Limits { max_steps: Some(max_steps), max_ticks: None }
}

fn ticks(max_ticks: u64) -> Limits {
    Limits { max_steps: None, max_ticks: Some(max_ticks) }
}

#[test]
fn zero_quantum_is_invalid_config() {
    let e = error_of(&[(1, 0, 5)], PolicyConfig::RoundRobin { quantum: 0 }, Limits::none());
    assert_eq!(e, SimError::InvalidConfig);
    let e = error_of(&[], PolicyConfig::RoundRobin { quantum: 0 }, Limits::none());
    assert_eq!(e, SimError::InvalidConfig);
}

#[test]
fn quantum_of_one_is_valid() {
    assert!(simulate(&jobs(&[(1, 0, 5)]), PolicyConfig::RoundRobin { quantum: 1 }, Limits::none())
        .is_ok());
}

#[test]
fn zero_burst_is_invalid_job() {
    let e = error_of(&[(1, 0, 5), (2, 3, 0)], PolicyConfig::FCFS, Limits::none());
    assert_eq!(e, SimError::InvalidJob { id: 2, reason: InvalidReason::NonPositiveBurst });
}

#[test]
fn negative_burst_is_invalid_job() {
    let e = error_of(&[(7, 0, -4)], PolicyConfig::SJN, Limits::none());
    assert_eq!(e, SimError::InvalidJob { id: 7, reason: InvalidReason::NonPositiveBurst });
}

#[test]
fn negative_arrival_is_invalid_job() {
    let e = error_of(&[(1, 0, 5), (9, -1, 2)], PolicyConfig::SRT, Limits::none());
    assert_eq!(e, SimError::InvalidJob { id: 9, reason: InvalidReason::NegativeArrival });
}

#[test]
fn first_defective_job_in_input_order_is_reported() {
    let e = error_of(&[(1, 0, 5), (2, -3, 1), (3, 0, 0)], PolicyConfig::FCFS, Limits::none());
    assert_eq!(e, SimError::InvalidJob { id: 2, reason: InvalidReason::NegativeArrival });
}

#[test]
fn bad_burst_is_reported_before_bad_arrival() {
    let e = error_of(&[(4, -1, 0)], PolicyConfig::FCFS, Limits::none());
    assert_eq!(e, SimError::InvalidJob { id: 4, reason: InvalidReason::NonPositiveBurst });
}

#[test]
fn repeated_identifier_is_duplicate_job_id() {
    let e = error_of(&[(1, 0, 5), (2, 1, 3), (1, 2, 8)], PolicyConfig::FCFS, Limits::none());
    assert_eq!(e, SimError::DuplicateJobId { id: 1 });
}

#[test]
fn first_repeat_in_input_order_is_reported() {
    let rows = [(5, 0, 1), (6, 0, 1), (7, 0, 1), (6, 0, 1), (5, 0, 1)];
    let e = error_of(&rows, PolicyConfig::FCFS, Limits::none());
    assert_eq!(e, SimError::DuplicateJobId { id: 6 });
}

#[test]
fn invalid_config_comes_before_invalid_job() {
    let e = error_of(&[(1, 0, 0)], PolicyConfig::RoundRobin { quantum: 0 }, Limits::none());
    assert_eq!(e, SimError::InvalidConfig);
}

#[test]
fn invalid_job_comes_before_duplicate() {
    let e = error_of(&[(1, 0, 5), (1, 0, 5), (2, 0, 0)], PolicyConfig::FCFS, Limits::none());
    assert_eq!(e, SimError::InvalidJob { id: 2, reason: InvalidReason::NonPositiveBurst });
}

#[test]
fn invalid_job_comes_before_limits() {
    let e = error_of(&[(1, 0, 5), (2, 0, 0)], PolicyConfig::FCFS, steps(0));
    assert_eq!(e, SimError::InvalidJob { id: 2, reason: InvalidReason::NonPositiveBurst });
}

#[test]
fn step_limit_exceeded_when_decisions_run_out() {
    let rows = [(1, 0, 5), (2, 1, 3), (3, 2, 8)];
    assert_eq!(error_of(&rows, PolicyConfig::FCFS, steps(2)), SimError::StepLimitExceeded);
    assert_eq!(error_of(&rows, PolicyConfig::FCFS, steps(0)), SimError::StepLimitExceeded);
}

#[test]
fn step_limit_met_exactly_is_ok() {
    let rows = [(1, 0, 5), (2, 1, 3), (3, 2, 8)];
    assert!(simulate(&jobs(&rows), PolicyConfig::FCFS, steps(3)).is_ok());
}

#[test]
fn idle_jump_counts_as_a_decision() {
    let rows = [(1, 0, 2), (2, 5, 3)];
    assert_eq!(error_of(&rows, PolicyConfig::FCFS, steps(2)), SimError::StepLimitExceeded);
    assert!(simulate(&jobs(&rows), PolicyConfig::FCFS, steps(3)).is_ok());
}

#[test]
fn every_slice_counts_as_a_decision() {
    let rows = [(1, 0, 8), (2, 1, 4), (3, 2, 2)];
    assert_eq!(error_of(&rows, PolicyConfig::SRT, steps(4)), SimError::StepLimitExceeded);
    assert!(simulate(&jobs(&rows), PolicyConfig::SRT, steps(5)).is_ok());
    let rows = [(1, 0, 5), (2, 0, 3), (3, 0, 6)];
    let rr = PolicyConfig::RoundRobin { quantum: 2 };
    assert_eq!(error_of(&rows, rr, steps(7)), SimError::StepLimitExceeded);
    assert!(simulate(&jobs(&rows), rr, steps(8)).is_ok());
}

#[test]
fn time_limit_exceeded_when_clock_passes_it() {
    let rows = [(1, 0, 5), (2, 1, 3), (3, 2, 8)];
    assert_eq!(error_of(&rows, PolicyConfig::FCFS, ticks(15)), SimError::TimeLimitExceeded);
    assert_eq!(error_of(&rows, PolicyConfig::FCFS, ticks(0)), SimError::TimeLimitExceeded);
}

#[test]
fn time_limit_met_exactly_is_ok() {
    let rows = [(1, 0, 5), (2, 1, 3), (3, 2, 8)];
    assert!(simulate(&jobs(&rows), PolicyConfig::FCFS, ticks(16)).is_ok());
}

#[test]
fn idle_jump_past_the_time_limit_is_an_error() {
    let rows = [(1, 0, 2), (2, 50, 3)];
    assert_eq!(error_of(&rows, PolicyConfig::FCFS, ticks(40)), SimError::TimeLimitExceeded);
}

#[test]
fn time_limit_wins_where_the_clock_passes_it_within_the_allowed_steps() {
    let rows = [(1, 0, 5), (2, 1, 3), (3, 2, 8)];
    let limits = Limits { max_steps: Some(2), max_ticks: Some(6) };
    assert_eq!(error_of(&rows, PolicyConfig::FCFS, limits), SimError::TimeLimitExceeded);
}

#[test]
fn step_limit_wins_where_the_steps_run_out_first() {
    let rows = [(1, 0, 5), (2, 1, 3), (3, 2, 8)];
    let limits = Limits { max_steps: Some(1), max_ticks: Some(6) };
    assert_eq!(error_of(&rows, PolicyConfig::FCFS, limits), SimError::StepLimitExceeded);
}

#[test]
fn clock_overflow_is_time_limit_exceeded() {
    let rows = [(1, 0, i64::MAX), (2, 0, i64::MAX), (3, 0, 2)];
    assert_eq!(error_of(&rows, PolicyConfig::FCFS, Limits::none()), SimError::TimeLimitExceeded);
    assert_eq!(
        error_of(&rows, PolicyConfig::RoundRobin { quantum: u64::MAX }, Limits::none()),
        SimError::TimeLimitExceeded
    );
}

#[test]
fn clock_may_reach_the_largest_tick() {
    let rows = [(1, 0, i64::MAX), (2, 0, i64::MAX), (3, 0, 1)];
    let result = simulate(&jobs(&rows), PolicyConfig::FCFS, Limits::none());
    match result {
        Ok(r) => assert_eq!(r.aggregate().makespan, u64::MAX),
        Err(e) => panic!("unexpected error: {:?}", e),
    }
}

#[test]
fn empty_job_set_gives_empty_result() {
    for policy in [
        PolicyConfig::FCFS,
        PolicyConfig::SJN,
        PolicyConfig::SRT,
        PolicyConfig::RoundRobin { quantum: 3 },
    ] {
        let result = match simulate(&Vec::new(), policy, steps(0)) {
            Ok(r) => r,
            Err(e) => panic!("unexpected error: {:?}", e),
        };
        assert!(result.trace().is_empty());
        assert!(result.metrics().is_empty());
        let figures = result.aggregate();
        assert_eq!(figures.job_count, 0);
        assert_eq!(figures.makespan, 0);
        assert_eq!(figures.total_idle_ticks, 0);
        assert_eq!(figures.average_turnaround.numerator, 0);
        assert_eq!(figures.average_turnaround.denominator, 0);
        assert_eq!(figures.cpu_utilization.denominator, 0);
        assert_eq!(result.metrics_for(1), None);
    }
}
