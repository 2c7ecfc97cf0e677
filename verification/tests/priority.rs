use lib::gantt::GanttSegment;
use lib::priority::PriorityScheduler;
use lib::{CpuScheduler, Process};

#[test]
fn priority_empty() {
    let chart = PriorityScheduler::default().schedule(&[]);
    assert_eq!(chart.segments.len(), 0);
}

#[test]
fn non_preemptive_basic() {
    let procs = vec![
        Process::with_priority(1, 0, 6, 2),
        Process::with_priority(2, 0, 4, 1),
        Process::with_priority(3, 0, 2, 3),
    ];
    let chart = PriorityScheduler::non_preemptive().schedule(&procs);
    // P2 (pri=1) first, then P1 (pri=2), then P3 (pri=3)
    assert_eq!(chart.segments[0].pid, 2);
    assert_eq!(chart.segments[1].pid, 1);
    assert_eq!(chart.segments[2].pid, 3);
}

#[test]
fn preemptive_basic() {
    let procs = vec![
        Process::with_priority(1, 0, 4, 2),
        Process::with_priority(2, 2, 3, 1), // arrives at 2, higher priority
    ];
    let chart = PriorityScheduler::preemptive().schedule(&procs);
    // P1 runs 0-2, then P2 (higher pri) preempts: 2-5, then P1 resumes: 5-7
    assert_eq!(chart.segments[0].pid, 1);
    assert_eq!(chart.segments[0].end, 2);
}

#[test]
fn priority_single_process() {
    let chart = PriorityScheduler::default().schedule(&[
        Process::with_priority(1, 0, 5, 1),
    ]);
    assert_eq!(chart.total_time(), 5);
}

#[test]
fn same_priority_fcfs() {
    let procs = vec![
        Process::with_priority(1, 0, 3, 1),
        Process::with_priority(2, 0, 3, 1),
    ];
    let chart = PriorityScheduler::non_preemptive().schedule(&procs);
    assert_eq!(chart.segments[0].pid, 1);
    assert_eq!(chart.segments[1].pid, 2);
}

#[test]
fn preemptive_full_chart() {
    let procs = vec![
        Process::with_priority(1, 0, 4, 2),
        Process::with_priority(2, 2, 3, 1),
    ];
    let chart = PriorityScheduler::preemptive().schedule(&procs);
    assert_eq!(
        chart.segments,
        vec![
            GanttSegment { pid: 1, start: 0, end: 2 },
            GanttSegment { pid: 2, start: 2, end: 5 },
            GanttSegment { pid: 1, start: 5, end: 7 },
        ]
    );
}

#[test]
fn priority_idle_until_arrival() {
    let procs = vec![Process::with_priority(1, 3, 2, 0)];
    let chart = PriorityScheduler::non_preemptive().schedule(&procs);
    assert_eq!(chart.segments, vec![GanttSegment { pid: 1, start: 3, end: 5 }]);
}

#[test]
fn priority_schedules_every_process_after_idle_gap() {
    // The CPU idles from 1 to 3; both later processes still run.
    let procs = vec![
        Process::with_priority(1, 0, 1, 0),
        Process::with_priority(2, 3, 1, 0),
        Process::with_priority(3, 3, 1, 1),
    ];
    let chart = PriorityScheduler::non_preemptive().schedule(&procs);
    assert_eq!(
        chart.segments,
        vec![
            GanttSegment { pid: 1, start: 0, end: 1 },
            GanttSegment { pid: 2, start: 3, end: 4 },
            GanttSegment { pid: 3, start: 4, end: 5 },
        ]
    );
    let same_priority = vec![
        Process::with_priority(1, 0, 1, 1),
        Process::with_priority(2, 3, 1, 1),
        Process::with_priority(3, 3, 1, 1),
    ];
    let chart = PriorityScheduler::preemptive().schedule(&same_priority);
    assert_eq!(
        chart.segments,
        vec![
            GanttSegment { pid: 1, start: 0, end: 1 },
            GanttSegment { pid: 2, start: 3, end: 4 },
            GanttSegment { pid: 3, start: 4, end: 5 },
        ]
    );
}

#[test]
fn priority_runs_each_burst() {
    let procs = vec![
        Process::with_priority(1, 0, 3, 2),
        Process::with_priority(2, 4, 2, 0),
        Process::with_priority(3, 5, 4, 1),
        Process::with_priority(4, 20, 1, 3),
    ];
    for sched in [PriorityScheduler::preemptive(), PriorityScheduler::non_preemptive()] {
        let chart = sched.schedule(&procs);
        for s in &chart.segments {
            assert!(s.start < s.end);
        }
        for p in &procs {
            let ran: u32 = chart
                .segments
                .iter()
                .filter(|s| s.pid == p.pid)
                .map(|s| s.end - s.start)
                .sum();
            assert_eq!(ran, p.burst_time);
        }
    }
}

#[test]
fn priority_shared_pid_charges_the_first_process_with_that_pid() {
    // Both processes carry pid 1: running the chosen one clears the first
    // process with that pid, so the chosen one is picked a second time.
    let procs = vec![
        Process::with_priority(1, 0, 2, 5),
        Process::with_priority(1, 0, 3, 1),
    ];
    let chart = PriorityScheduler::non_preemptive().schedule(&procs);
    assert_eq!(
        chart.segments,
        vec![GanttSegment { pid: 1, start: 0, end: 3 }, GanttSegment { pid: 1, start: 3, end: 6 }]
    );
}

#[test]
fn priority_constructors() {
    assert!(PriorityScheduler::new(true).preemptive);
    assert!(!PriorityScheduler::new(false).preemptive);
    assert!(!PriorityScheduler::default().preemptive);
}

#[test]
fn non_preemptive_runs_whole_bursts() {
    let procs = vec![
        Process::with_priority(1, 0, 3, 5),
        Process::with_priority(2, 1, 2, 1),
        Process::with_priority(3, 1, 4, 0),
    ];
    let chart = PriorityScheduler::non_preemptive().schedule(&procs);
    assert_eq!(
        chart.segments,
        vec![
            GanttSegment { pid: 1, start: 0, end: 3 },
            GanttSegment { pid: 3, start: 3, end: 7 },
            GanttSegment { pid: 2, start: 7, end: 9 },
        ]
    );
}

#[test]
fn preemptive_merges_consecutive_units() {
    let procs = vec![
        Process::with_priority(1, 0, 3, 1),
        Process::with_priority(2, 1, 1, 0),
    ];
    let chart = PriorityScheduler::preemptive().schedule(&procs);
    assert_eq!(
        chart.segments,
        vec![
            GanttSegment { pid: 1, start: 0, end: 1 },
            GanttSegment { pid: 2, start: 1, end: 2 },
            GanttSegment { pid: 1, start: 2, end: 4 },
        ]
    );
    for w in chart.segments.windows(2) {
        assert!(!(w[0].pid == w[1].pid && w[0].end == w[1].start));
    }
}

#[test]
fn priority_ties_by_arrival_then_pid() {
    let procs = vec![
        Process::with_priority(9, 0, 1, 2),
        Process::with_priority(5, 0, 1, 2),
        Process::with_priority(4, 0, 1, 3),
    ];
    let chart = PriorityScheduler::non_preemptive().schedule(&procs);
    let pids: Vec<u32> = chart.segments.iter().map(|s| s.pid).collect();
    assert_eq!(pids, vec![5, 9, 4]);
}

#[test]
fn priority_chart_ignores_input_order_and_stale_remaining() {
    let procs = vec![
        Process::with_priority(1, 0, 3, 2),
        Process::with_priority(2, 1, 2, 1),
        Process::with_priority(3, 1, 2, 1),
        Process::with_priority(4, 9, 1, 0),
    ];
    let mut shuffled = vec![procs[3], procs[1], procs[0], procs[2]];
    shuffled[0].remaining_time = 0;
    shuffled[2].remaining_time = 7;
    for sched in [PriorityScheduler::preemptive(), PriorityScheduler::non_preemptive()] {
        assert_eq!(sched.schedule(&procs).segments, sched.schedule(&shuffled).segments);
    }
}
