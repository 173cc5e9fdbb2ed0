use schedsim::driver::{simulate, SimulationResult};
use schedsim::job::{Job, Limits, PolicyConfig};
use schedsim::metrics::Fraction;
use schedsim::trace::{Label, TraceSegment};

const A: u64 = 1;
const B: u64 = 2;
const C: u64 = 3;
const D: u64 = 4;

fn jobs(rows: &[(u64, i64, i64)]) -> Vec<Job> {
    rows.iter().map(|&(id, arrival, burst)| Job::new(id, arrival, burst)).collect()
}

fn run_seg(id: u64, start: u64, end: u64) -> TraceSegment {
    TraceSegment { start, end, label: Label::Job(id) }
}

fn idle_seg(start: u64, end: u64) -> TraceSegment {
    TraceSegment { start, end, label: Label::Idle }
}

fn run(rows: &[(u64, i64, i64)], policy: PolicyConfig) -> SimulationResult {
    match simulate(&jobs(rows), policy, Limits::none()) {
        Ok(result) => result,
        Err(e) => panic!("unexpected error: {:?}", e),
    }
}

#[test]
fn fcfs_three_jobs() {
    let result = run(&[(A, 0, 5), (B, 1, 3), (C, 2, 8)], PolicyConfig::FCFS);
    assert_eq!(result.trace(), &vec![run_seg(A, 0, 5), run_seg(B, 5, 8), run_seg(C, 8, 16)]);
    let a = result.metrics_for(A).unwrap();
    let b = result.metrics_for(B).unwrap();
    let c = result.metrics_for(C).unwrap();
    assert_eq!((a.turnaround_time, b.turnaround_time, c.turnaround_time), (5, 7, 14));
    assert_eq!((a.waiting_time, b.waiting_time, c.waiting_time), (0, 4, 6));
    assert_eq!((a.completion_time, b.completion_time, c.completion_time), (5, 8, 16));
    assert_eq!((a.response_time, b.response_time, c.response_time), (0, 4, 6));
}

#[test]
fn sjn_with_late_shorter_job() {
    let result = run(&[(A, 0, 7), (B, 2, 4), (C, 4, 1), (D, 5, 4)], PolicyConfig::SJN);
    assert_eq!(
        result.trace(),
        &vec![run_seg(A, 0, 7), run_seg(C, 7, 8), run_seg(B, 8, 12), run_seg(D, 12, 16)]
    );
    let turnaround: Vec<u64> = [A, C, B, D]
        .iter()
        .map(|id| result.metrics_for(*id).unwrap().turnaround_time)
        .collect();
    assert_eq!(turnaround, vec![7, 4, 10, 11]);
}

#[test]
fn srt_preemption() {
    let result = run(&[(A, 0, 8), (B, 1, 4), (C, 2, 2)], PolicyConfig::SRT);
    assert_eq!(
        result.trace(),
        &vec![
            run_seg(A, 0, 1),
            run_seg(B, 1, 2),
            run_seg(C, 2, 4),
            run_seg(B, 4, 7),
            run_seg(A, 7, 14),
        ]
    );
    for id in [A, B, C] {
        assert_eq!(result.metrics_for(id).unwrap().response_time, 0);
    }
    assert_eq!(result.metrics_for(C).unwrap().completion_time, 4);
    assert_eq!(result.metrics_for(B).unwrap().completion_time, 7);
    assert_eq!(result.metrics_for(A).unwrap().completion_time, 14);
}

#[test]
fn round_robin_quantum_two() {
    let result = run(&[(A, 0, 5), (B, 0, 3), (C, 0, 6)], PolicyConfig::RoundRobin { quantum: 2 });
    assert_eq!(
        result.trace(),
        &vec![
            run_seg(A, 0, 2),
            run_seg(B, 2, 4),
            run_seg(C, 4, 6),
            run_seg(A, 6, 8),
            run_seg(B, 8, 9),
            run_seg(C, 9, 11),
            run_seg(A, 11, 12),
            run_seg(C, 12, 14),
        ]
    );
    assert_eq!(result.metrics_for(B).unwrap().completion_time, 9);
    assert_eq!(result.metrics_for(A).unwrap().completion_time, 12);
    assert_eq!(result.metrics_for(C).unwrap().completion_time, 14);
}

#[test]
fn idle_gap() {
    let result = run(&[(A, 0, 2), (B, 5, 3)], PolicyConfig::FCFS);
    assert_eq!(result.trace(), &vec![run_seg(A, 0, 2), idle_seg(2, 5), run_seg(B, 5, 8)]);
    let figures = result.aggregate();
    assert_eq!(figures.cpu_utilization, Fraction { numerator: 5, denominator: 8 });
    assert_eq!(figures.makespan, 8);
    assert_eq!(figures.total_idle_ticks, 3);
}

#[test]
fn round_robin_with_large_quantum_is_fcfs() {
    let sets: Vec<Vec<(u64, i64, i64)>> = vec![
        vec![(A, 0, 5), (B, 1, 3), (C, 2, 8)],
        vec![(C, 3, 4), (A, 3, 2), (B, 0, 9), (D, 20, 1)],
        vec![(D, 0, 1), (C, 0, 1), (B, 0, 1), (A, 0, 1)],
    ];
    for rows in sets {
        let longest = rows.iter().map(|r| r.2).max().unwrap() as u64;
        for quantum in [longest, longest + 1, longest + 100] {
            let rr = run(&rows, PolicyConfig::RoundRobin { quantum });
            let fcfs = run(&rows, PolicyConfig::FCFS);
            assert_eq!(rr.trace(), fcfs.trace());
            assert_eq!(rr.metrics(), fcfs.metrics());
        }
    }
}

#[test]
fn sjn_run_breaks_ties_by_arrival_then_identifier() {
    let result = run(&[(1, 0, 3), (5, 1, 2), (4, 2, 2), (3, 2, 2)], PolicyConfig::SJN);
    assert_eq!(
        result.trace(),
        &vec![run_seg(1, 0, 3), run_seg(5, 3, 5), run_seg(3, 5, 7), run_seg(4, 7, 9)]
    );
}

#[test]
fn fcfs_run_breaks_ties_by_identifier() {
    let result = run(&[(9, 0, 1), (2, 0, 2), (5, 0, 3)], PolicyConfig::FCFS);
    assert_eq!(result.trace(), &vec![run_seg(2, 0, 2), run_seg(5, 2, 5), run_seg(9, 5, 6)]);
}

#[test]
fn srt_does_not_preempt_for_an_equally_long_arrival() {
    let result = run(&[(1, 0, 4), (2, 1, 3)], PolicyConfig::SRT);
    assert_eq!(result.trace(), &vec![run_seg(1, 0, 4), run_seg(2, 4, 7)]);
    assert_eq!(result.metrics_for(2).unwrap().response_time, 3);
}

#[test]
fn srt_preempts_for_a_strictly_shorter_arrival() {
    let result = run(&[(1, 0, 4), (2, 1, 2)], PolicyConfig::SRT);
    assert_eq!(result.trace(), &vec![run_seg(1, 0, 1), run_seg(2, 1, 3), run_seg(1, 3, 6)]);
    assert_eq!(result.metrics_for(1).unwrap().waiting_time, 2);
    assert_eq!(result.metrics_for(1).unwrap().response_time, 0);
}

#[test]
fn sjn_does_not_preempt_for_a_shorter_arrival() {
    let result = run(&[(1, 0, 4), (2, 1, 2)], PolicyConfig::SJN);
    assert_eq!(result.trace(), &vec![run_seg(1, 0, 4), run_seg(2, 4, 6)]);
}

#[test]
fn round_robin_with_quantum_one_alternates() {
    let result = run(&[(1, 0, 2), (2, 0, 2)], PolicyConfig::RoundRobin { quantum: 1 });
    assert_eq!(
        result.trace(),
        &vec![run_seg(1, 0, 1), run_seg(2, 1, 2), run_seg(1, 2, 3), run_seg(2, 3, 4)]
    );
}

#[test]
fn round_robin_merges_slices_of_a_lone_job() {
    let result = run(&[(1, 2, 7)], PolicyConfig::RoundRobin { quantum: 3 });
    assert_eq!(result.trace(), &vec![idle_seg(0, 2), run_seg(1, 2, 9)]);
    let m = result.metrics_for(1).unwrap();
    assert_eq!((m.completion_time, m.turnaround_time), (9, 7));
    assert_eq!((m.waiting_time, m.response_time), (0, 0));
}

#[test]
fn aggregate_figures_of_the_three_job_run() {
    let result = run(&[(A, 0, 5), (B, 1, 3), (C, 2, 8)], PolicyConfig::FCFS);
    let figures = result.aggregate();
    assert_eq!(figures.job_count, 3);
    assert_eq!(figures.makespan, 16);
    assert_eq!(figures.total_idle_ticks, 0);
    assert_eq!(figures.average_turnaround, Fraction { numerator: 26, denominator: 3 });
    assert_eq!(figures.average_waiting, Fraction { numerator: 10, denominator: 3 });
    assert_eq!(figures.average_response, Fraction { numerator: 10, denominator: 3 });
    assert_eq!(figures.cpu_utilization, Fraction { numerator: 16, denominator: 16 });
    assert_eq!(figures.throughput, Fraction { numerator: 3, denominator: 16 });
}
