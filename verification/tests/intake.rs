use schedsim::intake::{arrange, validate};
use schedsim::job::{InvalidReason, Job, SimError, Task};

fn task(id: u64, arrival: u64, burst: u64) -> Task {
    Task { id, arrival, burst }
}

#[test]
fn job_check_accepts_a_sound_job() {
    assert_eq!(Job::new(1, 0, 1).check(), None);
    assert_eq!(Job::new(1, i64::MAX, i64::MAX).check(), None);
}

#[test]
fn job_check_names_the_defect() {
    assert_eq!(Job::new(1, 0, 0).check(), Some(InvalidReason::NonPositiveBurst));
    assert_eq!(Job::new(1, 0, i64::MIN).check(), Some(InvalidReason::NonPositiveBurst));
    assert_eq!(Job::new(1, -1, 1).check(), Some(InvalidReason::NegativeArrival));
    assert_eq!(Job::new(1, i64::MIN, 1).check(), Some(InvalidReason::NegativeArrival));
}

#[test]
fn job_builders_set_the_fields() {
    let job = Job::new(3, 4, 5);
    assert_eq!(job, Job { id: 3, arrival: 4, burst: 5, priority: None });
    assert_eq!(job.with_priority(-2), Job { id: 3, arrival: 4, burst: 5, priority: Some(-2) });
}

#[test]
fn to_task_keeps_the_values() {
    assert_eq!(Job::new(3, 4, 5).to_task(), task(3, 4, 5));
    assert_eq!(
        Job::new(3, i64::MAX, i64::MAX).with_priority(1).to_task(),
        task(3, i64::MAX as u64, i64::MAX as u64)
    );
}

#[test]
fn validate_hands_back_tasks_in_input_order() {
    let jobs = vec![Job::new(3, 9, 1), Job::new(1, 0, 7), Job::new(2, 4, 4)];
    assert_eq!(validate(&jobs), Ok(vec![task(3, 9, 1), task(1, 0, 7), task(2, 4, 4)]));
    assert_eq!(validate(&Vec::new()), Ok(Vec::new()));
}

#[test]
fn validate_reports_defect_and_repeat() {
    let jobs = vec![Job::new(3, 9, 1), Job::new(1, 0, -7)];
    assert_eq!(
        validate(&jobs),
        Err(SimError::InvalidJob { id: 1, reason: InvalidReason::NonPositiveBurst })
    );
    let jobs = vec![Job::new(3, 9, 1), Job::new(3, 0, 7)];
    assert_eq!(validate(&jobs), Err(SimError::DuplicateJobId { id: 3 }));
}

#[test]
fn arrange_orders_by_arrival_then_identifier() {
    let tasks = vec![task(3, 9, 1), task(8, 4, 7), task(2, 4, 4), task(5, 0, 2), task(1, 4, 9)];
    assert_eq!(
        arrange(&tasks),
        vec![task(5, 0, 2), task(1, 4, 9), task(2, 4, 4), task(8, 4, 7), task(3, 9, 1)]
    );
}

#[test]
fn arrange_keeps_what_is_in_order_and_reverses_what_is_not() {
    let sorted = vec![task(1, 0, 1), task(2, 1, 1), task(3, 2, 1)];
    assert_eq!(arrange(&sorted), sorted);
    let reversed = vec![task(3, 2, 1), task(2, 1, 1), task(1, 0, 1)];
    assert_eq!(arrange(&reversed), sorted);
    assert_eq!(arrange(&Vec::new()), Vec::new());
}

#[test]
fn arrange_orders_equal_keys_by_burst() {
    let tasks = vec![task(1, 0, 9), task(1, 0, 2)];
    assert_eq!(arrange(&tasks), vec![task(1, 0, 2), task(1, 0, 9)]);
}
