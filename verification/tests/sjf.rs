use lib::gantt::GanttSegment;
use lib::sjf::SjfScheduler;
use lib::{CpuScheduler, Process};

#[test]
fn sjf_empty() {
    let chart = SjfScheduler.schedule(&[]);
    assert_eq!(chart.segments.len(), 0);
}

#[test]
fn single() {
    let chart = SjfScheduler.schedule(&[Process::new(1, 0, 5)]);
    assert_eq!(chart.total_time(), 5);
}

#[test]
fn picks_shortest() {
    // All arrive at 0: P1(burst=8), P2(burst=4), P3(burst=2)
    let procs = vec![
        Process::new(1, 0, 8),
        Process::new(2, 0, 4),
        Process::new(3, 0, 2),
    ];
    let chart = SjfScheduler.schedule(&procs);
    // Order: P3(2), P2(4), P1(8)
    assert_eq!(chart.segments[0].pid, 3);
    assert_eq!(chart.segments[1].pid, 2);
    assert_eq!(chart.segments[2].pid, 1);
}

#[test]
fn arrival_matters() {
    // P1: arr=0,burst=6; P2: arr=2,burst=2
    // At t=0, only P1 available: runs P1 first
    let procs = vec![
        Process::new(1, 0, 6),
        Process::new(2, 2, 2),
    ];
    let chart = SjfScheduler.schedule(&procs);
    assert_eq!(chart.segments[0].pid, 1);
    assert_eq!(chart.segments[1].pid, 2);
}

#[test]
fn sjf_metrics() {
    let procs = vec![
        Process::new(1, 0, 8),
        Process::new(2, 0, 4),
        Process::new(3, 0, 2),
    ];
    let chart = SjfScheduler.schedule(&procs);
    let m = chart.metrics();
    // P3: completes at 2, turnaround=2, waiting=0
    assert_eq!(m.turnaround(3, 0), Some(2));
    // P2: completes at 6, turnaround=6, waiting=2
    assert_eq!(m.waiting(2, 0, 4), Some(2));
}

#[test]
fn sjf_jumps_to_next_arrival() {
    let procs = vec![Process::new(1, 5, 3), Process::new(2, 9, 1)];
    let chart = SjfScheduler.schedule(&procs);
    assert_eq!(
        chart.segments,
        vec![
            GanttSegment { pid: 1, start: 5, end: 8 },
            GanttSegment { pid: 2, start: 9, end: 10 },
        ]
    );
}

#[test]
fn sjf_ties_by_arrival_then_pid() {
    let procs = vec![
        Process::new(4, 1, 2),
        Process::new(9, 0, 5),
        Process::new(3, 1, 2),
    ];
    let chart = SjfScheduler.schedule(&procs);
    // t=0: only P9; at t=5: P3 and P4 tie on burst and arrival, P3 has the lower pid.
    assert_eq!(chart.segments[0], GanttSegment { pid: 9, start: 0, end: 5 });
    assert_eq!(chart.segments[1], GanttSegment { pid: 3, start: 5, end: 7 });
    assert_eq!(chart.segments[2], GanttSegment { pid: 4, start: 7, end: 9 });
}

#[test]
fn sjf_duplicate_pid_leaves_together() {
    // Both processes carry pid 1: once one runs, the other leaves the pool.
    let procs = vec![Process::new(1, 0, 4), Process::new(1, 0, 2)];
    let chart = SjfScheduler.schedule(&procs);
    assert_eq!(chart.segments, vec![GanttSegment { pid: 1, start: 0, end: 2 }]);
}

#[test]
fn sjf_response_equals_waiting() {
    let procs = vec![
        Process::new(1, 0, 8),
        Process::new(2, 1, 4),
        Process::new(3, 2, 9),
        Process::new(4, 3, 5),
    ];
    let chart = SjfScheduler.schedule(&procs);
    assert_eq!(chart.segments.len(), procs.len());
    let m = chart.metrics();
    for p in &procs {
        assert_eq!(m.response(p.pid, p.arrival_time), m.waiting(p.pid, p.arrival_time, p.burst_time));
    }
}

#[test]
fn sjf_chart_ignores_input_order() {
    let procs = vec![
        Process::new(1, 0, 5),
        Process::new(2, 1, 2),
        Process::new(3, 1, 2),
        Process::new(4, 12, 1),
    ];
    let mut shuffled = vec![procs[2], procs[3], procs[1], procs[0]];
    shuffled[1].priority = 9;
    shuffled[2].remaining_time = 0;
    assert_eq!(SjfScheduler.schedule(&procs).segments, SjfScheduler.schedule(&shuffled).segments);
}
