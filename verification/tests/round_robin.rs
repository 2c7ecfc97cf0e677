use lib::fcfs::FcfsScheduler;
use lib::gantt::GanttSegment;
use lib::round_robin::RoundRobinScheduler;
use lib::{CpuScheduler, Process};

#[test]
fn round_robin_empty() {
    let chart = RoundRobinScheduler::new(2).schedule(&[]);
    assert_eq!(chart.segments.len(), 0);
}

#[test]
fn single_no_preempt() {
    let chart = RoundRobinScheduler::new(4).schedule(&[Process::new(1, 0, 3)]);
    assert_eq!(chart.segments.len(), 1);
    assert_eq!(chart.total_time(), 3);
}

#[test]
fn round_robin_basic() {
    // P1: burst=4, P2: burst=3, quantum=2
    let procs = vec![
        Process::new(1, 0, 4),
        Process::new(2, 0, 3),
    ];
    let chart = RoundRobinScheduler::new(2).schedule(&procs);
    // P1(0-2), P2(2-4), P1(4-6), P2(6-7)
    assert_eq!(chart.segments[0], GanttSegment { pid: 1, start: 0, end: 2 });
    assert_eq!(chart.segments[1], GanttSegment { pid: 2, start: 2, end: 4 });
    assert_eq!(chart.segments[2], GanttSegment { pid: 1, start: 4, end: 6 });
    assert_eq!(chart.segments[3], GanttSegment { pid: 2, start: 6, end: 7 });
}

#[test]
fn staggered_arrivals() {
    let procs = vec![
        Process::new(1, 0, 4),
        Process::new(2, 3, 3),
    ];
    let chart = RoundRobinScheduler::new(2).schedule(&procs);
    assert_eq!(chart.segments[0].start, 0);
    assert!(chart.segments.iter().any(|s| s.pid == 2));
}

#[test]
fn round_robin_metrics() {
    let procs = vec![
        Process::new(1, 0, 4),
        Process::new(2, 0, 3),
    ];
    let chart = RoundRobinScheduler::new(2).schedule(&procs);
    let m = chart.metrics();
    // P2 completes at 7, arrival=0: turnaround=7
    assert_eq!(m.turnaround(2, 0), Some(7));
}

#[test]
fn round_robin_default_quantum() {
    assert_eq!(RoundRobinScheduler::default().quantum, 2);
}

#[test]
fn round_robin_new_arrival_before_requeue() {
    // P2 arrives while P1 runs: it enters the queue before P1 goes back.
    let procs = vec![Process::new(1, 0, 5), Process::new(2, 1, 2)];
    let chart = RoundRobinScheduler::new(2).schedule(&procs);
    assert_eq!(
        chart.segments,
        vec![
            GanttSegment { pid: 1, start: 0, end: 2 },
            GanttSegment { pid: 2, start: 2, end: 4 },
            GanttSegment { pid: 1, start: 4, end: 6 },
            GanttSegment { pid: 1, start: 6, end: 7 },
        ]
    );
}

#[test]
fn round_robin_idle_gap_and_zero_burst() {
    let procs = vec![Process::new(2, 4, 0), Process::new(1, 1, 1)];
    let chart = RoundRobinScheduler::new(3).schedule(&procs);
    assert_eq!(
        chart.segments,
        vec![
            GanttSegment { pid: 1, start: 1, end: 2 },
            GanttSegment { pid: 2, start: 4, end: 4 },
        ]
    );
}

#[test]
fn round_robin_runs_each_burst_in_quantum_slices() {
    let procs = vec![
        Process::new(1, 0, 7),
        Process::new(2, 2, 4),
        Process::new(3, 20, 3),
        Process::new(4, 1, 0),
    ];
    let quantum = 3;
    let chart = RoundRobinScheduler::new(quantum).schedule(&procs);
    for s in &chart.segments {
        assert!(s.end - s.start <= quantum);
    }
    for w in chart.segments.windows(2) {
        assert!(w[0].end <= w[1].start);
    }
    for p in &procs {
        let ran: u32 = chart
            .segments
            .iter()
            .filter(|s| s.pid == p.pid)
            .map(|s| s.end - s.start)
            .sum();
        assert_eq!(ran, p.burst_time);
    }
}

#[test]
fn round_robin_near_time_limit() {
    let procs = vec![Process::new(1, u32::MAX - 5, 5)];
    let chart = RoundRobinScheduler::new(2).schedule(&procs);
    assert_eq!(chart.total_time(), u32::MAX);
}

#[test]
fn round_robin_chart_ignores_input_order() {
    let procs = vec![
        Process::new(1, 0, 5),
        Process::new(2, 1, 3),
        Process::new(3, 1, 4),
        Process::new(4, 15, 2),
    ];
    let mut shuffled = vec![procs[3], procs[2], procs[0], procs[1]];
    shuffled[0].priority = 4;
    shuffled[3].remaining_time = 1;
    let sched = RoundRobinScheduler::new(2);
    assert_eq!(sched.schedule(&procs).segments, sched.schedule(&shuffled).segments);
}

#[test]
fn round_robin_with_large_quantum_is_fcfs() {
    let procs = vec![
        Process::new(3, 2, 4),
        Process::new(1, 0, 3),
        Process::new(2, 2, 0),
        Process::new(4, 20, 5),
    ];
    let rr = RoundRobinScheduler::new(5).schedule(&procs);
    let fcfs = FcfsScheduler.schedule(&procs);
    assert_eq!(rr.segments, fcfs.segments);
}
