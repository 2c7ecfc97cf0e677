use lib::gantt::{GanttChart, GanttSegment};
use lib::Process;

#[test]
fn empty_chart() {
    let g = GanttChart::new();
    assert_eq!(g.total_time(), 0);
    assert_eq!(g.display(), "|");
}

#[test]
fn single_segment() {
    let mut g = GanttChart::new();
    g.add(1, 0, 6);
    assert_eq!(g.total_time(), 6);
}

#[test]
fn metrics_basic() {
    let mut g = GanttChart::new();
    g.add(1, 0, 6);
    g.add(2, 6, 14);
    let m = g.metrics();
    assert_eq!(m.turnaround(1, 0), Some(6));
    assert_eq!(m.turnaround(2, 1), Some(13));
    assert_eq!(m.waiting(1, 0, 6), Some(0));
    assert_eq!(m.waiting(2, 1, 8), Some(5));
}

#[test]
fn display_format() {
    let mut g = GanttChart::new();
    g.add(1, 0, 3);
    g.add(2, 3, 5);
    let s = g.display();
    assert!(s.contains("P1"));
    assert!(s.contains("P2"));
}

#[test]
fn display_exact_text() {
    let mut g = GanttChart::new();
    g.add(12, 0, 3);
    g.add(2, 30, 105);
    assert_eq!(g.display(), "| P12 [0-3] | P2 [30-105] |");
}

#[test]
fn add_appends_in_order() {
    let mut g = GanttChart::default();
    g.add(4, 1, 2);
    g.add(5, 2, 9);
    assert_eq!(
        g.segments,
        vec![GanttSegment { pid: 4, start: 1, end: 2 }, GanttSegment { pid: 5, start: 2, end: 9 }]
    );
    assert_eq!(g.total_time(), 9);
}

#[test]
fn metrics_last_completion_first_start() {
    let mut g = GanttChart::new();
    g.add(1, 0, 2);
    g.add(2, 2, 4);
    g.add(1, 4, 5);
    let m = g.metrics();
    assert_eq!(m.completion_times.get(&1), Some(&5));
    assert_eq!(m.first_run.get(&1), Some(&0));
    assert_eq!(m.response(2, 1), Some(1));
    assert_eq!(m.turnaround(3, 0), None);
    assert_eq!(m.waiting(3, 0, 1), None);
    assert_eq!(m.response(3, 0), None);
}

#[test]
fn metrics_totals() {
    let mut g = GanttChart::new();
    g.add(1, 0, 6);
    g.add(2, 6, 14);
    let m = g.metrics();
    assert_eq!(m.total_turnaround(&[(1, 0), (2, 1), (9, 0)]), Some(19));
    assert_eq!(m.total_waiting(&[(1, 0, 6), (2, 1, 8)]), Some(5));
    // Completed before the stated arrival, or before arrival plus burst.
    assert_eq!(m.total_turnaround(&[(1, 7)]), None);
    assert_eq!(m.total_waiting(&[(2, 6, 9)]), None);
}

#[test]
fn metrics_totals_overflow() {
    let mut g = GanttChart::new();
    g.add(1, 0, u32::MAX);
    g.add(2, 0, u32::MAX);
    let m = g.metrics();
    assert_eq!(m.total_turnaround(&[(1, 0)]), Some(u32::MAX));
    assert_eq!(m.total_turnaround(&[(1, 0), (2, 0)]), None);
    assert_eq!(m.total_waiting(&[(1, 0, 0), (2, 0, 0)]), None);
}

#[test]
fn process_constructors() {
    let p = Process::new(3, 4, 5);
    assert_eq!((p.pid, p.arrival_time, p.burst_time, p.priority, p.remaining_time), (3, 4, 5, 0, 5));
    let mut q = Process::with_priority(1, 2, 3, 7);
    assert_eq!(q.priority, 7);
    q.remaining_time = 0;
    q.reset_remaining();
    assert_eq!(q.remaining_time, 3);
}
