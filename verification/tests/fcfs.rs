use lib::fcfs::FcfsScheduler;
use lib::gantt::GanttSegment;
use lib::{CpuScheduler, Process};

#[test]
fn empty_processes() {
    let chart = FcfsScheduler.schedule(&[]);
    assert_eq!(chart.segments.len(), 0);
}

#[test]
fn fcfs_single_process() {
    let chart = FcfsScheduler.schedule(&[Process::new(1, 0, 6)]);
    assert_eq!(chart.segments.len(), 1);
    assert_eq!(chart.total_time(), 6);
}

#[test]
fn textbook_example() {
    // P1: arr=0, burst=6; P2: arr=1, burst=8; P3: arr=2, burst=7
    let procs = vec![
        Process::new(1, 0, 6),
        Process::new(2, 1, 8),
        Process::new(3, 2, 7),
    ];
    let chart = FcfsScheduler.schedule(&procs);
    assert_eq!(chart.segments[0], GanttSegment { pid: 1, start: 0, end: 6 });
    assert_eq!(chart.segments[1], GanttSegment { pid: 2, start: 6, end: 14 });
    assert_eq!(chart.segments[2], GanttSegment { pid: 3, start: 14, end: 21 });
}

#[test]
fn waiting_times() {
    let procs = vec![
        Process::new(1, 0, 6),
        Process::new(2, 1, 8),
        Process::new(3, 2, 7),
    ];
    let chart = FcfsScheduler.schedule(&procs);
    let m = chart.metrics();
    assert_eq!(m.waiting(1, 0, 6), Some(0));
    assert_eq!(m.waiting(2, 1, 8), Some(5));
    assert_eq!(m.waiting(3, 2, 7), Some(12));
}

#[test]
fn gap_in_arrivals() {
    let procs = vec![
        Process::new(1, 0, 3),
        Process::new(2, 10, 5),
    ];
    let chart = FcfsScheduler.schedule(&procs);
    assert_eq!(chart.segments[1].start, 10);
}

#[test]
fn fcfs_sorts_by_arrival_then_pid() {
    let procs = vec![
        Process::new(5, 4, 1),
        Process::new(3, 0, 2),
        Process::new(2, 0, 2),
    ];
    let chart = FcfsScheduler.schedule(&procs);
    assert_eq!(
        chart.segments,
        vec![
            GanttSegment { pid: 2, start: 0, end: 2 },
            GanttSegment { pid: 3, start: 2, end: 4 },
            GanttSegment { pid: 5, start: 4, end: 5 },
        ]
    );
}

#[test]
fn fcfs_equal_keys_keep_input_order() {
    // Same pid and arrival: the input order decides.
    let procs = vec![Process::new(7, 0, 3), Process::new(7, 0, 1)];
    let chart = FcfsScheduler.schedule(&procs);
    assert_eq!(chart.segments[0], GanttSegment { pid: 7, start: 0, end: 3 });
    assert_eq!(chart.segments[1], GanttSegment { pid: 7, start: 3, end: 4 });
}

#[test]
fn fcfs_zero_burst() {
    let procs = vec![Process::new(1, 2, 0), Process::new(2, 2, 4)];
    let chart = FcfsScheduler.schedule(&procs);
    assert_eq!(chart.segments[0], GanttSegment { pid: 1, start: 2, end: 2 });
    assert_eq!(chart.segments[1], GanttSegment { pid: 2, start: 2, end: 6 });
}

#[test]
fn fcfs_response_equals_waiting() {
    let procs = vec![
        Process::new(1, 0, 6),
        Process::new(2, 1, 8),
        Process::new(3, 30, 7),
    ];
    let chart = FcfsScheduler.schedule(&procs);
    let m = chart.metrics();
    for p in &procs {
        assert_eq!(m.response(p.pid, p.arrival_time), m.waiting(p.pid, p.arrival_time, p.burst_time));
    }
}

#[test]
fn fcfs_near_time_limit() {
    let procs = vec![Process::new(1, u32::MAX - 5, 2), Process::new(2, 0, 3)];
    let chart = FcfsScheduler.schedule(&procs);
    assert_eq!(chart.segments[1], GanttSegment { pid: 1, start: u32::MAX - 5, end: u32::MAX - 3 });
}
