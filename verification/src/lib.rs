//! CPU scheduling algorithms.
//!
//! Provides FCFS, SJF, Round Robin and Priority scheduling with Gantt chart
//! output. Every scheduler is specified by a mathematical model of its
//! simulation, and the executable code is proved to produce exactly the
//! chart that the model describes.
use vstd::prelude::*;

pub mod fcfs;
pub mod gantt;
pub mod order;
pub mod permutation;
pub mod priority;
pub mod round_robin;
pub mod sjf;

pub use gantt::{GanttChart, GanttSegment, ScheduleMetrics};

verus! {

/// A process for scheduling.
#[derive(Debug, Clone, Copy)]
pub struct Process {
    pub pid: u32,
    pub arrival_time: u32,
    pub burst_time: u32,
    pub priority: u32,
    pub remaining_time: u32,
}

impl Process {
    pub fn new(pid: u32, arrival_time: u32, burst_time: u32) -> (p: Self)
        ensures
            p.pid == pid,
            p.arrival_time == arrival_time,
            p.burst_time == burst_time,
            p.priority == 0,
            p.remaining_time == burst_time,
    {
        Process { pid, arrival_time, burst_time, priority: 0, remaining_time: burst_time }
    }

    pub fn with_priority(pid: u32, arrival_time: u32, burst_time: u32, priority: u32) -> (p: Self)
        ensures
            p.pid == pid,
            p.arrival_time == arrival_time,
            p.burst_time == burst_time,
            p.priority == priority,
            p.remaining_time == burst_time,
    {
        Process { pid, arrival_time, burst_time, priority, remaining_time: burst_time }
    }

    pub fn reset_remaining(&mut self)
        ensures
            *final(self) == (Process { remaining_time: old(self).burst_time, ..*old(self) }),
    {
        self.remaining_time = self.burst_time;
    }
}

/// The sum of the burst times.
pub open spec fn sum_bursts(s: Seq<Process>) -> int
    decreases s.len(),
{
    if s.len() == 0 {
        0
    } else {
        sum_bursts(s.drop_last()) + s.last().burst_time
    }
}

/// The sum of the remaining times.
pub open spec fn sum_remaining(s: Seq<Process>) -> int
    decreases s.len(),
{
    if s.len() == 0 {
        0
    } else {
        sum_remaining(s.drop_last()) + s.last().remaining_time
    }
}

/// Replacing one process changes the sum of remaining times by the difference.
pub proof fn lemma_sum_remaining_update(s: Seq<Process>, i: int, p: Process)
    requires
        0 <= i < s.len(),
    ensures
        sum_remaining(s.update(i, p)) == sum_remaining(s) - s[i].remaining_time + p.remaining_time,
    decreases s.len(),
{
    let u = s.update(i, p);
    if i < s.len() - 1 {
        lemma_sum_remaining_update(s.drop_last(), i, p);
        assert(u.drop_last() =~= s.drop_last().update(i, p));
        assert(u.last() == s.last());
    } else {
        assert(u.drop_last() =~= s.drop_last());
    }
}

/// Remaining times add up to a non-negative sum.
pub proof fn lemma_sum_remaining_nonneg(s: Seq<Process>)
    ensures
        0 <= sum_remaining(s),
    decreases s.len(),
{
    if s.len() > 0 {
        lemma_sum_remaining_nonneg(s.drop_last());
    }
}

/// A positive sum of remaining times has a process with time left.
pub proof fn lemma_sum_remaining_positive(s: Seq<Process>)
    requires
        sum_remaining(s) > 0,
    ensures
        exists|i: int| 0 <= i < s.len() && (#[trigger] s[i]).remaining_time > 0,
    decreases s.len(),
{
    if s.last().remaining_time > 0 {
        assert(s[s.len() - 1].remaining_time > 0);
    } else {
        lemma_sum_remaining_positive(s.drop_last());
        let i = choose|i: int| 0 <= i < s.drop_last().len() && (#[trigger] s.drop_last()[i]).remaining_time > 0;
        assert(s[i] == s.drop_last()[i]);
    }
}

/// Every process arrives no later than `a`.
pub open spec fn arrivals_within(s: Seq<Process>, a: int) -> bool {
    forall|i: int| 0 <= i < s.len() ==> (#[trigger] s[i]).arrival_time <= a
}

/// `p` as a job: what it is apart from its priority and its progress
/// (priority 0, remaining time reset to its burst).
pub open spec fn job(p: Process) -> Process {
    Process { priority: 0, remaining_time: p.burst_time, ..p }
}

/// Every process of `s` as a job.
pub open spec fn jobs(s: Seq<Process>) -> Seq<Process> {
    Seq::new(s.len(), |i: int| job(s[i]))
}

/// Jobs keep the pids distinct.
pub proof fn lemma_jobs_distinct(s: Seq<Process>)
    requires
        distinct_pids(s),
    ensures
        distinct_pids(jobs(s)),
{
    assert forall|x: int, y: int| 0 <= x < y < jobs(s).len() implies (#[trigger] jobs(s)[x]).pid
        != (#[trigger] jobs(s)[y]).pid by {
        assert(s[x].pid != s[y].pid);
    }
}

/// No two processes share a pid.
pub open spec fn distinct_pids(s: Seq<Process>) -> bool {
    forall|i: int, j: int| 0 <= i < j < s.len() ==> (#[trigger] s[i]).pid != (#[trigger] s[j]).pid
}

/// Trait for CPU schedulers.
///
/// Each scheduler names, as spec functions, the inputs on which its
/// simulation runs to completion (without an arithmetic overflow) and the
/// chart that the simulation produces.
pub trait CpuScheduler {
    /// The inputs on which `schedule` runs to completion.
    spec fn accepts(&self, processes: Seq<Process>) -> bool;

    /// The segments of the chart that `schedule` returns.
    spec fn chart_of(&self, processes: Seq<Process>) -> Seq<GanttSegment>;

    /// Schedule the given processes and return a Gantt chart.
    fn schedule(&self, processes: &[Process]) -> (chart: GanttChart)
        requires
            self.accepts(processes@),
        ensures
            chart.segments@ == self.chart_of(processes@),
    ;
}

} // verus!
