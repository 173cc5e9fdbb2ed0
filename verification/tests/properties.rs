use schedsim::driver::{simulate, SimulationResult};
use schedsim::engine::{RunState, Simulation};
use schedsim::job::{Job, Limits, PolicyConfig, Task};
use schedsim::trace::Label;

fn job_sets() -> Vec<Vec<(u64, i64, i64)>> {
    vec![
        vec![(1, 0, 5), (2, 1, 3), (3, 2, 8)],
        vec![(1, 0, 7), (2, 2, 4), (3, 4, 1), (4, 5, 4)],
        vec![(1, 0, 8), (2, 1, 4), (3, 2, 2)],
        vec![(1, 0, 5), (2, 0, 3), (3, 0, 6)],
        vec![(1, 0, 2), (2, 5, 3)],
        vec![(4, 3, 4), (2, 3, 4), (9, 10, 1), (7, 30, 6), (1, 30, 6), (5, 31, 2)],
        vec![(1, 4, 3)],
        vec![(10, 0, 2), (9, 0, 2), (8, 0, 2), (7, 0, 2), (6, 0, 2), (5, 0, 2)],
        vec![(1, 0, 10), (2, 1, 1), (3, 1, 9), (4, 2, 1), (5, 20, 3), (6, 21, 3)],
        vec![(3, 7, 1), (2, 7, 1), (1, 0, 20), (4, 8, 5), (5, 9, 2), (6, 9, 2)],
    ]
}

fn policies() -> Vec<PolicyConfig> {
    vec![
        PolicyConfig::FCFS,
        PolicyConfig::SJN,
        PolicyConfig::SRT,
        PolicyConfig::RoundRobin { quantum: 1 },
        PolicyConfig::RoundRobin { quantum: 2 },
        PolicyConfig::RoundRobin { quantum: 3 },
        PolicyConfig::RoundRobin { quantum: 100 },
    ]
}

fn jobs(rows: &[(u64, i64, i64)]) -> Vec<Job> {
    rows.iter().map(|&(id, arrival, burst)| Job::new(id, arrival, burst)).collect()
}

fn run(rows: &[(u64, i64, i64)], policy: PolicyConfig) -> SimulationResult {
    match simulate(&jobs(rows), policy, Limits::none()) {
        Ok(result) => result,
        Err(e) => panic!("unexpected error: {:?}", e),
    }
}

fn ready(tasks: &[Task], states: &[RunState], now: u64) -> Vec<usize> {
    (0..tasks.len())
        .filter(|&j| tasks[j].arrival <= now && states[j].completion.is_none())
        .collect()
}

/// One decision: the ready tasks before it, the task that ran (if any), the
/// states before it, and the ticks at which the slice began and ended.
fn decisions(
    rows: &[(u64, i64, i64)],
    policy: PolicyConfig,
) -> Vec<(Vec<usize>, Option<usize>, Vec<RunState>, u64, u64)> {
    let mut sim = Simulation::begin(&jobs(rows), policy).ok().unwrap();
    let mut out = Vec::new();
    while !sim.is_finished() {
        let tasks = sim.task_list().clone();
        let before = sim.run_states().clone();
        let start = sim.now();
        let waiting = ready(&tasks, &before, start);
        assert_eq!(sim.advance(u64::MAX), Ok(()));
        let after = sim.run_states();
        let ran: Vec<usize> =
            (0..tasks.len()).filter(|&j| after[j].remaining != before[j].remaining).collect();
        assert!(ran.len() <= 1);
        if let Some(&j) = ran.first() {
            assert_eq!(before[j].remaining - after[j].remaining, sim.now() - start);
            assert!(waiting.contains(&j));
        } else {
            assert!(waiting.is_empty());
        }
        out.push((waiting, ran.first().copied(), before, start, sim.now()));
    }
    out
}

#[test]
fn completion_is_at_least_arrival_plus_burst() {
    for rows in job_sets() {
        for policy in policies() {
            let result = run(&rows, policy);
            assert_eq!(result.metrics().len(), rows.len());
            for m in result.metrics() {
                assert!(m.completion_time >= m.arrival + m.burst);
                assert_eq!(m.turnaround_time, m.completion_time - m.arrival);
                assert_eq!(m.waiting_time + m.burst, m.turnaround_time);
                let row = rows.iter().find(|r| r.0 == m.id).unwrap();
                assert_eq!((m.arrival as i64, m.burst as i64), (row.1, row.2));
            }
        }
    }
}

#[test]
fn waiting_and_response_fit_within_turnaround() {
    for rows in job_sets() {
        for policy in policies() {
            let result = run(&rows, policy);
            for m in result.metrics() {
                assert!(m.response_time <= m.waiting_time);
                assert!(m.waiting_time <= m.turnaround_time);
                assert!(m.arrival + m.response_time + m.burst <= m.completion_time);
            }
        }
    }
}

#[test]
fn busy_segments_add_up_to_the_bursts() {
    for rows in job_sets() {
        let total: u64 = rows.iter().map(|r| r.2 as u64).sum();
        for policy in policies() {
            let result = run(&rows, policy);
            let busy: u64 = result
                .trace()
                .iter()
                .filter(|s| s.label != Label::Idle)
                .map(|s| s.end - s.start)
                .sum();
            assert_eq!(busy, total);
            for &(id, _, burst) in &rows {
                let of_job: u64 = result
                    .trace()
                    .iter()
                    .filter(|s| s.label == Label::Job(id))
                    .map(|s| s.end - s.start)
                    .sum();
                assert_eq!(of_job, burst as u64);
            }
            let figures = result.aggregate();
            assert_eq!(figures.makespan, total + figures.total_idle_ticks);
            assert_eq!(figures.cpu_utilization.numerator, total as u128);
            assert_eq!(figures.cpu_utilization.denominator, figures.makespan as u128);
            assert!(figures.cpu_utilization.numerator <= figures.cpu_utilization.denominator);
            assert_eq!(figures.job_count, rows.len());
        }
    }
}

#[test]
fn trace_is_contiguous_and_merged() {
    for rows in job_sets() {
        for policy in policies() {
            let result = run(&rows, policy);
            let trace = result.trace();
            assert_eq!(trace[0].start, 0);
            for s in trace.iter() {
                assert!(s.start < s.end);
            }
            for pair in trace.windows(2) {
                assert_eq!(pair[0].end, pair[1].start);
                assert_ne!(pair[0].label, pair[1].label);
            }
            let latest = result.metrics().iter().map(|m| m.completion_time).max().unwrap();
            assert_eq!(trace.last().unwrap().end, latest);
            assert_eq!(result.aggregate().makespan, latest);
        }
    }
}

#[test]
fn no_job_runs_before_it_arrives() {
    for rows in job_sets() {
        for policy in policies() {
            let result = run(&rows, policy);
            for s in result.trace() {
                if let Label::Job(id) = s.label {
                    let row = rows.iter().find(|r| r.0 == id).unwrap();
                    assert!(s.start >= row.1 as u64);
                }
            }
        }
    }
}

#[test]
fn two_runs_give_the_same_result() {
    for rows in job_sets() {
        for policy in policies() {
            let first = run(&rows, policy);
            let second = run(&rows, policy);
            assert_eq!(first.trace(), second.trace());
            assert_eq!(first.metrics(), second.metrics());
            assert_eq!(first.aggregate(), second.aggregate());
        }
    }
}

#[test]
fn input_order_does_not_matter() {
    for rows in job_sets() {
        let mut reversed = rows.clone();
        reversed.reverse();
        let mut rotated = rows.clone();
        rotated.rotate_left(1);
        for policy in policies() {
            let first = run(&rows, policy);
            for other in [&reversed, &rotated] {
                let second = run(other, policy);
                assert_eq!(first.trace(), second.trace());
                assert_eq!(first.metrics(), second.metrics());
                assert_eq!(first.aggregate(), second.aggregate());
            }
        }
    }
}

#[test]
fn fcfs_completes_in_order_of_arrival_then_identifier() {
    for rows in job_sets() {
        let result = run(&rows, PolicyConfig::FCFS);
        let table = result.metrics();
        for pair in table.windows(2) {
            assert!((pair[0].arrival, pair[0].id) < (pair[1].arrival, pair[1].id));
            assert!(pair[0].completion_time < pair[1].completion_time);
        }
    }
}

#[test]
fn sjn_dispatches_the_least_burst_among_the_ready() {
    for rows in job_sets() {
        let tasks = Simulation::begin(&jobs(&rows), PolicyConfig::SJN).ok().unwrap();
        let tasks = tasks.task_list().clone();
        for (waiting, ran, before, _, end) in decisions(&rows, PolicyConfig::SJN) {
            if let Some(j) = ran {
                for &other in &waiting {
                    assert!(tasks[j].burst <= tasks[other].burst);
                    assert_eq!(before[other].remaining, tasks[other].burst);
                }
                assert_eq!(before[j].first_start, None);
                assert!(end > 0);
            }
        }
    }
}

#[test]
fn srt_runs_the_least_remaining_at_every_tick() {
    for rows in job_sets() {
        let sim = Simulation::begin(&jobs(&rows), PolicyConfig::SRT).ok().unwrap();
        let tasks = sim.task_list().clone();
        for (_, ran, before, start, end) in decisions(&rows, PolicyConfig::SRT) {
            if let Some(j) = ran {
                for t in start..end {
                    let left = before[j].remaining - (t - start);
                    for other in ready(&tasks, &before, t) {
                        assert!(left <= before[other].remaining);
                    }
                }
            }
        }
    }
}

#[test]
fn round_robin_slices_and_turns() {
    for rows in job_sets() {
        for quantum in [1u64, 2, 3, 100] {
            let all = decisions(&rows, PolicyConfig::RoundRobin { quantum });
            for (_, ran, _, start, end) in &all {
                if ran.is_some() {
                    assert!(end - start <= quantum);
                }
            }
            for pair in all.windows(2) {
                if let (Some(a), Some(b)) = (pair[0].1, pair[1].1) {
                    if a == b {
                        assert_eq!(pair[0].0, vec![a]);
                    }
                }
            }
        }
    }
}

#[test]
fn round_robin_with_covering_quantum_matches_fcfs() {
    for rows in job_sets() {
        let longest = rows.iter().map(|r| r.2).max().unwrap() as u64;
        let fcfs = run(&rows, PolicyConfig::FCFS);
        for quantum in [longest, longest + 1, u64::MAX] {
            let rr = run(&rows, PolicyConfig::RoundRobin { quantum });
            assert_eq!(rr.trace(), fcfs.trace());
            assert_eq!(rr.metrics(), fcfs.metrics());
            assert_eq!(rr.aggregate(), fcfs.aggregate());
        }
    }
}

#[test]
fn non_preemptive_policies_run_each_job_in_one_piece() {
    for rows in job_sets() {
        for policy in [PolicyConfig::FCFS, PolicyConfig::SJN] {
            let result = run(&rows, policy);
            let pieces = result.trace().iter().filter(|s| s.label != Label::Idle).count();
            assert_eq!(pieces, rows.len());
            for m in result.metrics() {
                assert_eq!(m.response_time, m.waiting_time);
            }
        }
    }
}

#[test]
fn makespan_is_within_latest_arrival_plus_bursts() {
    for rows in job_sets() {
        let latest = rows.iter().map(|r| r.1 as u64).max().unwrap();
        let room: u64 = latest + rows.iter().map(|r| r.2 as u64).sum::<u64>();
        for policy in policies() {
            let result = run(&rows, policy);
            assert!(result.aggregate().makespan <= room);
            let tight = Limits { max_steps: Some(room), max_ticks: Some(room) };
            assert!(simulate(&jobs(&rows), policy, tight).is_ok());
        }
    }
}

#[test]
fn cpu_idles_only_when_no_job_is_ready() {
    for rows in job_sets() {
        for policy in policies() {
            let result = run(&rows, policy);
            for s in result.trace().iter().filter(|s| s.label == Label::Idle) {
                for m in result.metrics() {
                    assert!(m.arrival >= s.end || m.completion_time <= s.start);
                }
            }
        }
    }
}

#[test]
fn every_slice_lies_within_the_life_of_its_job() {
    for rows in job_sets() {
        for policy in policies() {
            let result = run(&rows, policy);
            for s in result.trace() {
                if let Label::Job(id) = s.label {
                    let m = result.metrics_for(id).unwrap();
                    assert!(m.arrival + m.response_time <= s.start);
                    assert!(s.end <= m.completion_time);
                }
            }
            for m in result.metrics() {
                let first = result
                    .trace()
                    .iter()
                    .find(|s| s.label == Label::Job(m.id))
                    .map(|s| s.start);
                assert_eq!(first, Some(m.arrival + m.response_time));
                let last = result
                    .trace()
                    .iter()
                    .rev()
                    .find(|s| s.label == Label::Job(m.id))
                    .map(|s| s.end);
                assert_eq!(last, Some(m.completion_time));
            }
        }
    }
}
