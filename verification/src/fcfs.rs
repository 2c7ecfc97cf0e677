//! First Come, First Served CPU scheduling.
use vstd::prelude::*;
use crate::gantt::{GanttChart, GanttSegment, segment};
use crate::gantt::{chart_ordered, completion_map, first_run_map, lemma_single_segment_metrics};
use crate::order::{
    arrival_order, lemma_arrival_order, lemma_arrival_order_by_time, lemma_arrival_order_covers, lemma_arrival_order_distinct,
    lemma_arrival_order_member, lemma_arrival_order_totals,
    sort_by_arrival, sorted_by_arrival,
};
use crate::{CpuScheduler, Process, arrivals_within, distinct_pids, sum_bursts};

verus! {

/// FCFS scheduler: non-preemptive, processes run in arrival order.
#[derive(Debug, Default)]
pub struct FcfsScheduler;

/// The time at which `p` starts when the CPU becomes free at `t`.
pub open spec fn start_after(t: int, p: Process) -> int {
    if t < p.arrival_time {
        p.arrival_time as int
    } else {
        t
    }
}

/// The segments of running `order` one after another, each to completion,
/// with the CPU free from time `t`.
pub open spec fn fcfs_from(order: Seq<Process>, t: int) -> Seq<GanttSegment>
    decreases order.len(),
{
    if order.len() == 0 {
        Seq::empty()
    } else {
        let p = order[0];
        let start = start_after(t, p);
        seq![segment(p.pid, start, start + p.burst_time)] + fcfs_from(
            order.drop_first(),
            start + p.burst_time,
        )
    }
}

/// The time at which the last of `order` completes, the CPU being free from `t`.
pub open spec fn fcfs_finish(order: Seq<Process>, t: int) -> int
    decreases order.len(),
{
    if order.len() == 0 {
        t
    } else {
        let p = order[0];
        fcfs_finish(order.drop_first(), start_after(t, p) + p.burst_time)
    }
}

proof fn lemma_fcfs_finish_grows(order: Seq<Process>, t: int)
    ensures
        t <= fcfs_finish(order, t),
    decreases order.len(),
{
    if order.len() > 0 {
        lemma_fcfs_finish_grows(order.drop_first(), start_after(t, order[0]) + order[0].burst_time);
    }
}

/// The segments of `fcfs_from`: one per process, in the given order, each
/// as long as its burst and started as soon as the CPU is free and the
/// process has arrived.
proof fn lemma_fcfs_from(order: Seq<Process>, t: int)
    requires
        0 <= t,
        fcfs_finish(order, t) <= u32::MAX,
    ensures
        ({
            let r = fcfs_from(order, t);
            &&& r.len() == order.len()
            &&& chart_ordered(r)
            &&& forall|k: int|
                0 <= k < r.len() ==> {
                    &&& (#[trigger] r[k]).pid == order[k].pid
                    &&& r[k].end - r[k].start == order[k].burst_time
                    &&& r[k].start == start_after(if k == 0 { t } else { r[k - 1].end as int }, order[k])
                    &&& t <= r[k].start
                }
            &&& r.len() > 0 ==> r.last().end == fcfs_finish(order, t)
        }),
    decreases order.len(),
{
    if order.len() > 0 {
        let p = order[0];
        let st = start_after(t, p);
        let e = st + p.burst_time;
        let rest = order.drop_first();
        lemma_fcfs_finish_grows(rest, e);
        lemma_fcfs_from(rest, e);
        let r = fcfs_from(order, t);
        let rr = fcfs_from(rest, e);
        assert forall|k: int| 1 <= k < r.len() implies r[k] == rr[k - 1] by {}
        assert forall|k: int| 0 <= k < r.len() implies {
            &&& (#[trigger] r[k]).pid == order[k].pid
            &&& r[k].end - r[k].start == order[k].burst_time
            &&& r[k].start == start_after(if k == 0 { t } else { r[k - 1].end as int }, order[k])
            &&& t <= r[k].start
        } by {
            if k > 0 {
                assert(rest[k - 1] == order[k]);
                if k == 1 {
                    assert(r[0].end == e);
                }
            }
        }
        assert forall|i: int, j: int| 0 <= i < j < r.len() implies (#[trigger] r[i]).end <= (
        #[trigger] r[j]).start by {
            if i > 0 {
                assert(rr[i - 1].end <= rr[j - 1].start);
            }
        }
    }
}

/// FCFS runs every process once, in arrival order (arrival time, then pid,
/// then input order), each for its whole burst, starting as soon as the CPU
/// is free and the process has arrived; the segments follow one another in
/// time, and arrival order is a sorted rearrangement of the input.
pub proof fn lemma_fcfs_chart(processes: Seq<Process>)
    requires
        FcfsScheduler.accepts(processes),
    ensures
        ({
            let order = arrival_order(processes);
            let r = FcfsScheduler.chart_of(processes);
            &&& sorted_by_arrival(order)
            &&& order.to_multiset() == processes.to_multiset()
            &&& r.len() == processes.len()
            &&& chart_ordered(r)
            &&& forall|k: int|
                0 <= k < r.len() ==> {
                    &&& (#[trigger] r[k]).pid == order[k].pid
                    &&& r[k].end - r[k].start == order[k].burst_time
                    &&& r[k].start == start_after(if k == 0 { 0 } else { r[k - 1].end as int }, order[k])
                }
        }),
{
    lemma_arrival_order(processes);
    lemma_fcfs_from(arrival_order(processes), 0);
}

/// FCFS serves processes in the order they arrive: the process of a later
/// segment never arrived before the process of an earlier one, and
/// processes that arrived together run by pid.
pub proof fn lemma_fcfs_first_come(processes: Seq<Process>)
    requires
        FcfsScheduler.accepts(processes),
    ensures
        ({
            let order = arrival_order(processes);
            let r = FcfsScheduler.chart_of(processes);
            &&& r.len() == order.len()
            &&& forall|k: int| 0 <= k < r.len() ==> (#[trigger] r[k]).pid == order[k].pid
            &&& forall|k: int, l: int|
                0 <= k < l < r.len() ==> (#[trigger] order[k]).arrival_time
                    <= (#[trigger] order[l]).arrival_time
            &&& forall|k: int, l: int|
                0 <= k < l < r.len() && (#[trigger] order[k]).arrival_time
                    == (#[trigger] order[l]).arrival_time ==> order[k].pid <= order[l].pid
        }),
{
    lemma_fcfs_chart(processes);
    lemma_arrival_order_by_time(processes);
    lemma_arrival_order(processes);
}

/// FCFS never leaves the CPU idle while the next process waits: each
/// segment starts once the previous one has ended (time 0 for the first)
/// and its process has arrived, and at the later of those two times.
pub proof fn lemma_fcfs_no_idle_wait(processes: Seq<Process>)
    requires
        FcfsScheduler.accepts(processes),
    ensures
        ({
            let order = arrival_order(processes);
            let r = FcfsScheduler.chart_of(processes);
            forall|k: int|
                0 <= k < r.len() ==> {
                    let free: int = if k == 0 { 0 } else { r[k - 1].end as int };
                    &&& free <= (#[trigger] r[k]).start
                    &&& order[k].arrival_time <= r[k].start
                    &&& (r[k].start == free || r[k].start == order[k].arrival_time)
                }
        }),
{
    lemma_fcfs_chart(processes);
}

/// No FCFS segment starts before the process it runs has arrived.
pub proof fn lemma_fcfs_after_arrival(processes: Seq<Process>, k: int)
    requires
        FcfsScheduler.accepts(processes),
        0 <= k < FcfsScheduler.chart_of(processes).len(),
    ensures
        exists|i: int|
            0 <= i < processes.len() && processes[i].pid == FcfsScheduler.chart_of(processes)[k].pid
                && processes[i].arrival_time <= FcfsScheduler.chart_of(processes)[k].start,
{
    lemma_fcfs_chart(processes);
    lemma_arrival_order_member(processes, k);
    let i = choose|i: int| 0 <= i < processes.len() && processes[i] == arrival_order(processes)[k];
    assert(processes[i].pid == FcfsScheduler.chart_of(processes)[k].pid);
}

proof fn lemma_fcfs_segments(processes: Seq<Process>)
    requires
        FcfsScheduler.accepts(processes),
    ensures
        ({
            let order = arrival_order(processes);
            let r = fcfs_from(order, 0);
            &&& r.len() == order.len()
            &&& forall|k: int|
                0 <= k < r.len() ==> (#[trigger] r[k]).pid == order[k].pid && r[k].end - r[k].start
                    == order[k].burst_time
        }),
{
    lemma_fcfs_from(arrival_order(processes), 0);
}

/// With distinct pids, every process runs in one FCFS segment as long as its
/// burst, so its first run is its completion less its burst: its response
/// time equals its waiting time.
pub proof fn lemma_fcfs_response_is_waiting(processes: Seq<Process>, i: int)
    requires
        FcfsScheduler.accepts(processes),
        distinct_pids(processes),
        0 <= i < processes.len(),
    ensures
        ({
            let r = FcfsScheduler.chart_of(processes);
            let pid = processes[i].pid;
            &&& completion_map(r).contains_key(pid)
            &&& first_run_map(r).contains_key(pid)
            &&& first_run_map(r)[pid] == completion_map(r)[pid] - processes[i].burst_time
        }),
{
    let order = arrival_order(processes);
    let r = fcfs_from(order, 0);
    lemma_fcfs_segments(processes);
    lemma_arrival_order(processes);
    lemma_arrival_order_distinct(processes);
    lemma_arrival_order_covers(processes, i);
    let j = choose|j: int| 0 <= j < processes.len() && order[j] == processes[i];
    assert(r[j].pid == processes[i].pid);
    assert forall|m: int| 0 <= m < r.len() && m != j implies (#[trigger] r[m]).pid != r[j].pid by {
        assert(r[m].pid == order[m].pid);
        if m < j {
            assert(order[m].pid != order[j].pid);
        } else {
            assert(order[j].pid != order[m].pid);
        }
    }
    lemma_single_segment_metrics(r, j);
}

proof fn lemma_fcfs_finish_bound(order: Seq<Process>, t: int, a: int)
    requires
        arrivals_within(order, a),
    ensures
        fcfs_finish(order, t) <= (if t < a { a } else { t }) + sum_bursts(order),
    decreases order.len(),
{
    if order.len() > 0 {
        let p = order[0];
        let rest = order.drop_first();
        assert forall|i: int| 0 <= i < rest.len() implies (#[trigger] rest[i]).arrival_time <= a by {
            assert(rest[i] == order[i + 1]);
        }
        lemma_fcfs_finish_bound(rest, start_after(t, p) + p.burst_time, a);
        lemma_sum_bursts_first(order);
    }
}

proof fn lemma_sum_bursts_first(s: Seq<Process>)
    requires
        s.len() > 0,
    ensures
        sum_bursts(s) == s[0].burst_time + sum_bursts(s.drop_first()),
    decreases s.len(),
{
    if s.len() > 1 {
        lemma_sum_bursts_first(s.drop_last());
        assert(s.drop_last().drop_first() =~= s.drop_first().drop_last());
        assert(s.drop_first().last() == s.last());
        assert(s.drop_last()[0] == s[0]);
        let d = s.drop_first();
        assert(sum_bursts(d) == sum_bursts(d.drop_last()) + d.last().burst_time);
        assert(sum_bursts(s) == sum_bursts(s.drop_last()) + s.last().burst_time);
    } else {
        assert(s.drop_first().len() == 0);
        assert(s.drop_last().len() == 0);
        assert(s.last() == s[0]);
        assert(sum_bursts(s.drop_first()) == 0);
        assert(sum_bursts(s.drop_last()) == 0);
        assert(sum_bursts(s) == sum_bursts(s.drop_last()) + s.last().burst_time);
    }
}

/// FCFS completes whenever the last arrival plus the total burst time fits in `u32`.
pub proof fn lemma_fcfs_accepts(processes: Seq<Process>, a: int)
    requires
        arrivals_within(processes, a),
        a + sum_bursts(processes) <= u32::MAX,
        0 <= a,
    ensures
        FcfsScheduler.accepts(processes),
{
    lemma_arrival_order_totals(processes, a);
    lemma_fcfs_finish_bound(arrival_order(processes), 0, a);
}

impl CpuScheduler for FcfsScheduler {
    /// The schedule completes no later than `u32::MAX`.
    open spec fn accepts(&self, processes: Seq<Process>) -> bool {
        fcfs_finish(arrival_order(processes), 0) <= u32::MAX
    }

    /// The processes run in arrival order, each to completion as soon as
    /// the CPU is free and it has arrived.
    open spec fn chart_of(&self, processes: Seq<Process>) -> Seq<GanttSegment> {
        fcfs_from(arrival_order(processes), 0)
    }

    fn schedule(&self, processes: &[Process]) -> (chart: GanttChart) {
        let procs = sort_by_arrival(processes);
        let ghost order = procs@;
        let mut chart = GanttChart::new();
        let mut current_time: u32 = 0;
        let n = procs.len();
        let mut i: usize = 0;
        proof {
            assert(order.skip(0) =~= order);
        }
        while i < n
            invariant
                n == order.len(),
                procs@ == order,
                i <= n,
                fcfs_finish(order, 0) <= u32::MAX,
                fcfs_finish(order.skip(i as int), current_time as int) == fcfs_finish(order, 0),
                chart.segments@ + fcfs_from(order.skip(i as int), current_time as int) == fcfs_from(
                    order,
                    0,
                ),
            decreases n - i,
        {
            let p = procs[i];
            proof {
                let rest = order.skip(i as int);
                assert(rest[0] == p);
                assert(rest.drop_first() =~= order.skip(i + 1));
                lemma_fcfs_finish_grows(order.skip(i + 1), start_after(current_time as int, p) + p.burst_time);
            }
            if current_time < p.arrival_time {
                current_time = p.arrival_time;
            }
            let ghost before = chart.segments@;
            chart.add(p.pid, current_time, current_time + p.burst_time);
            proof {
                let rest = order.skip(i as int);
                assert(chart.segments@ + fcfs_from(order.skip(i + 1), current_time + p.burst_time)
                    =~= before + fcfs_from(rest, current_time as int));
            }
            current_time += p.burst_time;
            i += 1;
        }
        proof {
            assert(order.skip(n as int) =~= Seq::<Process>::empty());
            assert(chart.segments@ + Seq::<GanttSegment>::empty() =~= chart.segments@);
        }
        chart
    }
}

} // verus!
