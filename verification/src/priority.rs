//! Priority-based CPU scheduling.
use vstd::prelude::*;
use crate::gantt::{
    GanttChart, GanttSegment, busy_time, chart_end, chart_ordered, run_time, segment,
};
use crate::permutation::{
    lemma_matched_from_multiset, lemma_matched_pid, lemma_matched_sum, lemma_matched_update, matched,
};
use crate::round_robin::{lemma_reset_all_sum, reset_all, with_remaining};
use crate::{
    CpuScheduler, Process, arrivals_within, distinct_pids, lemma_sum_remaining_nonneg,
    lemma_sum_remaining_positive,
    lemma_sum_remaining_update, sum_bursts, sum_remaining,
};

verus! {

/// Priority scheduler: a lower number is a higher priority.
#[derive(Debug)]
pub struct PriorityScheduler {
    pub preemptive: bool,
}

impl PriorityScheduler {
    pub fn new(preemptive: bool) -> (s: Self)
        ensures
            s.preemptive == preemptive,
    {
        PriorityScheduler { preemptive }
    }

    pub fn non_preemptive() -> (s: Self)
        ensures
            !s.preemptive,
    {
        Self::new(false)
    }

    pub fn preemptive() -> (s: Self)
        ensures
            s.preemptive,
    {
        Self::new(true)
    }
}

impl Default for PriorityScheduler {
    fn default() -> (s: Self)
        ensures
            !s.preemptive,
    {
        Self::non_preemptive()
    }
}

/// The state of the priority simulation between two decisions.
pub struct PrioState {
    /// The processes, in input order, with their remaining times.
    pub procs: Seq<Process>,
    /// The current time.
    pub time: int,
    /// The chart so far.
    pub chart: Seq<GanttSegment>,
    /// The total burst time of the processes.
    pub total: int,
    /// The simulation stopped on a remaining time that would go below zero.
    pub fault: bool,
}

/// `a` comes strictly before `b` by (priority, arrival time, pid).
pub open spec fn ranks_before(a: Process, b: Process) -> bool {
    a.priority < b.priority || (a.priority == b.priority && (a.arrival_time < b.arrival_time || (
    a.arrival_time == b.arrival_time && a.pid < b.pid)))
}

/// `p` has arrived by `t` and has time left.
pub open spec fn is_ready(p: Process, t: int) -> bool {
    p.arrival_time <= t && p.remaining_time > 0
}

/// The index of the first ready process of `s` that is least by
/// (priority, arrival time, pid); -1 if none is ready at `t`.
pub open spec fn pick_priority(s: Seq<Process>, t: int) -> int
    decreases s.len(),
{
    if s.len() == 0 {
        -1
    } else {
        let k = pick_priority(s.drop_last(), t);
        if is_ready(s.last(), t) && (k < 0 || ranks_before(s.last(), s[k])) {
            s.len() - 1
        } else {
            k
        }
    }
}

/// The index of the first process of `s` with pid `pid`; -1 if there is none.
pub open spec fn first_with_pid(s: Seq<Process>, pid: u32) -> int
    decreases s.len(),
{
    if s.len() == 0 {
        -1
    } else {
        let k = first_with_pid(s.drop_last(), pid);
        if k >= 0 {
            k
        } else if s.last().pid == pid {
            s.len() - 1
        } else {
            -1
        }
    }
}

/// The simulation is over: the CPU has been busy for the total burst time,
/// or it stopped on a fault.
pub open spec fn prio_done(s: PrioState) -> bool {
    s.fault || busy_time(s.chart) >= s.total
}

/// The chart after `pid` runs for one unit from `t`: the last segment grows
/// if it is `pid`'s and ends at `t`, else a new segment starts.
pub open spec fn extend_chart(chart: Seq<GanttSegment>, pid: u32, t: int) -> Seq<GanttSegment> {
    if chart.len() > 0 && chart.last().pid == pid && chart.last().end == t {
        chart.update(chart.len() - 1, GanttSegment { end: (t + 1) as u32, ..chart.last() })
    } else {
        chart.push(segment(pid, t, t + 1))
    }
}

/// One decision. With no ready process the clock advances by one unit.
/// Otherwise the chosen process runs, for one unit when preemptive and to
/// completion when not; the remaining time that is charged is that of the
/// first process carrying the chosen pid.
pub open spec fn prio_step(preemptive: bool, s: PrioState) -> PrioState {
    if prio_done(s) {
        s
    } else {
        let k = pick_priority(s.procs, s.time);
        if k < 0 {
            PrioState { time: s.time + 1, ..s }
        } else {
            let p = s.procs[k];
            let j = first_with_pid(s.procs, p.pid);
            let q = s.procs[j];
            if preemptive {
                if q.remaining_time == 0 {
                    PrioState { fault: true, ..s }
                } else {
                    PrioState {
                        procs: s.procs.update(j, with_remaining(q, q.remaining_time - 1)),
                        time: s.time + 1,
                        chart: extend_chart(s.chart, p.pid, s.time),
                        ..s
                    }
                }
            } else {
                PrioState {
                    procs: s.procs.update(j, with_remaining(q, 0)),
                    time: s.time + p.remaining_time,
                    chart: s.chart.push(segment(p.pid, s.time, s.time + p.remaining_time)),
                    ..s
                }
            }
        }
    }
}

/// The state after `k` decisions.
pub open spec fn prio_steps(preemptive: bool, s: PrioState, k: nat) -> PrioState
    decreases k,
{
    if k == 0 {
        s
    } else {
        prio_steps(preemptive, prio_step(preemptive, s), (k - 1) as nat)
    }
}

/// The state before the first decision.
pub open spec fn prio_init(processes: Seq<Process>) -> PrioState {
    PrioState {
        procs: reset_all(processes),
        time: 0,
        chart: Seq::empty(),
        total: sum_bursts(processes),
        fault: false,
    }
}

/// A number of decisions after which the simulation is over.
pub open spec fn prio_turns(preemptive: bool, processes: Seq<Process>) -> nat {
    choose|k: nat| prio_done(prio_steps(preemptive, prio_init(processes), k))
}

/// The invariant of the states that the simulation reaches.
pub open spec fn prio_inv(processes: Seq<Process>, s: PrioState) -> bool {
    &&& s.procs.len() == processes.len()
    &&& forall|i: int|
        0 <= i < processes.len() ==> (#[trigger] s.procs[i]).pid == processes[i].pid
            && s.procs[i].arrival_time == processes[i].arrival_time && s.procs[i].burst_time
            == processes[i].burst_time && s.procs[i].priority == processes[i].priority
    &&& 0 <= s.time
    &&& chart_end(s.chart) <= s.time
    &&& s.total == sum_bursts(processes)
}

pub proof fn lemma_pick_priority(s: Seq<Process>, t: int)
    ensures
        -1 <= pick_priority(s, t) < s.len(),
        pick_priority(s, t) >= 0 ==> is_ready(s[pick_priority(s, t)], t),
        pick_priority(s, t) < 0 ==> forall|i: int| 0 <= i < s.len() ==> !is_ready(#[trigger] s[i], t),
    decreases s.len(),
{
    if s.len() > 0 {
        lemma_pick_priority(s.drop_last(), t);
        assert forall|i: int| 0 <= i < s.len() - 1 implies s[i] == s.drop_last()[i] by {}
    }
}

pub proof fn lemma_first_with_pid(s: Seq<Process>, pid: u32)
    ensures
        -1 <= first_with_pid(s, pid) < s.len(),
        first_with_pid(s, pid) >= 0 ==> s[first_with_pid(s, pid)].pid == pid,
        first_with_pid(s, pid) >= 0 ==> forall|i: int|
            0 <= i < first_with_pid(s, pid) ==> (#[trigger] s[i]).pid != pid,
        first_with_pid(s, pid) < 0 ==> forall|i: int| 0 <= i < s.len() ==> (#[trigger] s[i]).pid != pid,
    decreases s.len(),
{
    if s.len() > 0 {
        lemma_first_with_pid(s.drop_last(), pid);
        assert forall|i: int| 0 <= i < s.len() - 1 implies s[i] == s.drop_last()[i] by {}
    }
}

/// With distinct pids, the first process with `s[k]`'s pid is `s[k]`.
proof fn lemma_first_with_pid_distinct(s: Seq<Process>, k: int)
    requires
        distinct_pids(s),
        0 <= k < s.len(),
    ensures
        first_with_pid(s, s[k].pid) == k,
{
    lemma_first_with_pid(s, s[k].pid);
    let j = first_with_pid(s, s[k].pid);
    if j != k {
        if j < k {
            assert(s[j].pid != s[k].pid);
        } else {
            assert(s[k].pid != s[k].pid);
        }
    }
}

/// The processes of a reachable state carry the pids of the input.
proof fn lemma_procs_distinct(processes: Seq<Process>, s: PrioState)
    requires
        prio_inv(processes, s),
        distinct_pids(processes),
    ensures
        distinct_pids(s.procs),
{
    assert forall|a: int, b: int| 0 <= a < b < s.procs.len() implies (#[trigger] s.procs[a]).pid
        != (#[trigger] s.procs[b]).pid by {
        assert(s.procs[a].pid == processes[a].pid);
        assert(s.procs[b].pid == processes[b].pid);
    }
}

/// Each remaining time is at most the sum of them all.
proof fn lemma_remaining_le_sum(s: Seq<Process>, i: int)
    requires
        0 <= i < s.len(),
    ensures
        s[i].remaining_time <= sum_remaining(s),
{
    lemma_sum_remaining_update(s, i, with_remaining(s[i], 0));
    lemma_sum_remaining_nonneg(s.update(i, with_remaining(s[i], 0)));
}

proof fn lemma_step(preemptive: bool, processes: Seq<Process>, s: PrioState)
    requires
        prio_inv(processes, s),
    ensures
        prio_inv(processes, prio_step(preemptive, s)),
        s.time <= prio_step(preemptive, s).time,
        !prio_done(s) && !prio_step(preemptive, s).fault ==> s.time < prio_step(preemptive, s).time,
{
    if !prio_done(s) {
        let k = pick_priority(s.procs, s.time);
        lemma_pick_priority(s.procs, s.time);
        if k >= 0 {
            let p = s.procs[k];
            lemma_first_with_pid(s.procs, p.pid);
            let s2 = prio_step(preemptive, s);
            assert forall|i: int| 0 <= i < processes.len() implies (#[trigger] s2.procs[i]).pid
                == processes[i].pid && s2.procs[i].arrival_time == processes[i].arrival_time
                && s2.procs[i].burst_time == processes[i].burst_time && s2.procs[i].priority
                == processes[i].priority by {
                assert(s.procs[i].pid == processes[i].pid);
            }
        }
    }
}

proof fn lemma_steps_succ(preemptive: bool, s: PrioState, k: nat)
    ensures
        prio_steps(preemptive, s, k + 1) == prio_step(preemptive, prio_steps(preemptive, s, k)),
    decreases k,
{
    let s1 = prio_step(preemptive, s);
    if k > 0 {
        lemma_steps_succ(preemptive, s1, (k - 1) as nat);
        assert(prio_steps(preemptive, s, k) == prio_steps(preemptive, s1, (k - 1) as nat));
        assert(prio_steps(preemptive, s, k + 1) == prio_steps(preemptive, s1, k));
    } else {
        assert(prio_steps(preemptive, s, 1) == prio_steps(preemptive, s1, 0));
    }
}

proof fn lemma_steps_inv(preemptive: bool, processes: Seq<Process>, s: PrioState, j: nat, k: nat)
    requires
        prio_inv(processes, s),
        j <= k,
    ensures
        prio_inv(processes, prio_steps(preemptive, s, k)),
        prio_steps(preemptive, s, j).time <= prio_steps(preemptive, s, k).time,
    decreases k,
{
    if k > 0 {
        lemma_steps_succ(preemptive, s, (k - 1) as nat);
        if j < k {
            lemma_steps_inv(preemptive, processes, s, j, (k - 1) as nat);
        } else {
            lemma_steps_inv(preemptive, processes, s, (k - 1) as nat, (k - 1) as nat);
        }
        lemma_step(preemptive, processes, prio_steps(preemptive, s, (k - 1) as nat));
    }
}

proof fn lemma_steps_done(preemptive: bool, s: PrioState, j: nat, k: nat)
    requires
        prio_done(prio_steps(preemptive, s, j)),
        j <= k,
    ensures
        prio_steps(preemptive, s, k) == prio_steps(preemptive, s, j),
    decreases k,
{
    if j < k {
        lemma_steps_done(preemptive, s, j, (k - 1) as nat);
        lemma_steps_succ(preemptive, s, (k - 1) as nat);
    }
}

proof fn lemma_sum_bursts_prefix(s: Seq<Process>, i: int)
    requires
        0 <= i < s.len(),
    ensures
        sum_bursts(s.take(i + 1)) == sum_bursts(s.take(i)) + s[i].burst_time,
        sum_bursts(s.take(i + 1)) <= sum_bursts(s),
    decreases s.len(),
{
    assert(s.take(i + 1).drop_last() =~= s.take(i));
    if i + 1 < s.len() {
        lemma_sum_bursts_prefix(s.drop_last(), i);
        assert(s.drop_last().take(i + 1) =~= s.take(i + 1));
    } else {
        assert(s.take(i + 1) =~= s);
    }
}

/// The chosen process is ready, no ready process ranks strictly before it,
/// and it ranks strictly before every ready process that comes earlier.
pub proof fn lemma_pick_priority_least(s: Seq<Process>, t: int)
    ensures
        ({
            let k = pick_priority(s, t);
            k >= 0 ==> {
                &&& is_ready(s[k], t)
                &&& forall|i: int| 0 <= i < s.len() && is_ready(#[trigger] s[i], t) ==> !ranks_before(s[i], s[k])
                &&& forall|i: int| 0 <= i < k && is_ready(#[trigger] s[i], t) ==> ranks_before(s[k], s[i])
            }
        }),
    decreases s.len(),
{
    lemma_pick_priority(s, t);
    if s.len() > 0 {
        let init = s.drop_last();
        lemma_pick_priority_least(init, t);
        lemma_pick_priority(init, t);
        assert forall|i: int| 0 <= i < init.len() implies init[i] == s[i] by {}
    }
}

/// The process chosen at time `t` has arrived and has time left, and no
/// other such process is served first: none has a strictly smaller priority
/// number, none with the same priority arrived strictly earlier, and none
/// with the same priority and arrival has a smaller pid. When no process has
/// arrived with time left, none is chosen.
pub proof fn lemma_priority_serves_highest(s: Seq<Process>, t: int)
    ensures
        ({
            let k = pick_priority(s, t);
            &&& -1 <= k < s.len()
            &&& k < 0 <==> forall|i: int|
                0 <= i < s.len() ==> !((#[trigger] s[i]).arrival_time <= t && s[i].remaining_time > 0)
            &&& k >= 0 ==> {
                &&& s[k].arrival_time <= t
                &&& s[k].remaining_time > 0
                &&& forall|i: int|
                    0 <= i < s.len() && (#[trigger] s[i]).arrival_time <= t && s[i].remaining_time
                        > 0 ==> s[k].priority <= s[i].priority
                &&& forall|i: int|
                    0 <= i < s.len() && (#[trigger] s[i]).arrival_time <= t && s[i].remaining_time
                        > 0 && s[i].priority == s[k].priority ==> s[k].arrival_time
                        <= s[i].arrival_time
                &&& forall|i: int|
                    0 <= i < s.len() && (#[trigger] s[i]).arrival_time <= t && s[i].remaining_time
                        > 0 && s[i].priority == s[k].priority && s[i].arrival_time
                        == s[k].arrival_time ==> s[k].pid <= s[i].pid
            }
        }),
{
    lemma_pick_priority(s, t);
    lemma_pick_priority_least(s, t);
    let k = pick_priority(s, t);
    if k >= 0 {
        assert(is_ready(s[k], t));
        assert forall|i: int|
            0 <= i < s.len() && (#[trigger] s[i]).arrival_time <= t && s[i].remaining_time > 0
                implies s[k].priority <= s[i].priority by {
            assert(is_ready(s[i], t));
        }
        assert forall|i: int|
            0 <= i < s.len() && (#[trigger] s[i]).arrival_time <= t && s[i].remaining_time > 0
                && s[i].priority == s[k].priority implies s[k].arrival_time <= s[i].arrival_time by {
            assert(is_ready(s[i], t));
        }
        assert forall|i: int|
            0 <= i < s.len() && (#[trigger] s[i]).arrival_time <= t && s[i].remaining_time > 0
                && s[i].priority == s[k].priority && s[i].arrival_time == s[k].arrival_time
                implies s[k].pid <= s[i].pid by {
            assert(is_ready(s[i], t));
        }
    } else {
        assert forall|i: int| 0 <= i < s.len() implies !((#[trigger] s[i]).arrival_time <= t
            && s[i].remaining_time > 0) by {
            assert(!is_ready(s[i], t));
        }
    }
}

/// One decision of the simulation, before it is over. The CPU idles for
/// one unit exactly when no process that has arrived has time left.
/// Otherwise the first ready process least by (priority, arrival time, pid)
/// runs from the current time: for one unit when preemptive (extending its
/// segment if it ran just before), else for all its remaining time. The run
/// is charged to the first process that carries its pid; a preemptive unit
/// charged to a process with no time left is a fault.
pub proof fn lemma_priority_decision(preemptive: bool, s: PrioState)
    requires
        !prio_done(s),
    ensures
        ({
            let s2 = prio_step(preemptive, s);
            let k = pick_priority(s.procs, s.time);
            let j = first_with_pid(s.procs, s.procs[k].pid);
            &&& (forall|i: int| 0 <= i < s.procs.len() ==> !is_ready(#[trigger] s.procs[i], s.time))
                ==> s2 == (PrioState { time: s.time + 1, ..s })
            &&& (exists|i: int| 0 <= i < s.procs.len() && is_ready(#[trigger] s.procs[i], s.time))
                ==> {
                &&& 0 <= k < s.procs.len()
                &&& is_ready(s.procs[k], s.time)
                &&& forall|i: int|
                    0 <= i < s.procs.len() && is_ready(#[trigger] s.procs[i], s.time)
                        ==> !ranks_before(s.procs[i], s.procs[k])
                &&& forall|i: int|
                    0 <= i < k && is_ready(#[trigger] s.procs[i], s.time) ==> ranks_before(
                        s.procs[k],
                        s.procs[i],
                    )
                &&& 0 <= j <= k
                &&& s.procs[j].pid == s.procs[k].pid
                &&& forall|i: int| 0 <= i < j ==> (#[trigger] s.procs[i]).pid != s.procs[k].pid
                &&& preemptive && s.procs[j].remaining_time == 0 ==> s2 == (PrioState {
                    fault: true,
                    ..s
                })
                &&& preemptive && s.procs[j].remaining_time > 0 ==> {
                    &&& s2.time == s.time + 1
                    &&& s2.procs == s.procs.update(
                        j,
                        with_remaining(s.procs[j], s.procs[j].remaining_time - 1),
                    )
                    &&& s2.chart == extend_chart(s.chart, s.procs[k].pid, s.time)
                }
                &&& !preemptive ==> {
                    &&& s2.time == s.time + s.procs[k].remaining_time
                    &&& s2.procs == s.procs.update(j, with_remaining(s.procs[j], 0))
                    &&& s2.chart == s.chart.push(
                        segment(s.procs[k].pid, s.time, s.time + s.procs[k].remaining_time),
                    )
                }
            }
        }),
{
    lemma_pick_priority(s.procs, s.time);
    lemma_pick_priority_least(s.procs, s.time);
    let k = pick_priority(s.procs, s.time);
    if k >= 0 {
        lemma_first_with_pid(s.procs, s.procs[k].pid);
    }
}

/// What the chart of a reachable state satisfies: its segments follow one
/// another, each of positive length and none before its process arrives,
/// the process having a positive burst; preemptive charts never hold two
/// touching segments of one pid; without preemption every segment lasts its
/// process's whole burst and each remaining time is 0 or the whole burst.
pub open spec fn prio_chart_inv(processes: Seq<Process>, preemptive: bool, s: PrioState) -> bool {
    &&& chart_ordered(s.chart)
    &&& forall|k: int| 0 <= k < s.chart.len() ==> (#[trigger] s.chart[k]).start < s.chart[k].end
    &&& forall|k: int|
        #![trigger s.chart[k]]
        0 <= k < s.chart.len() ==> exists|i: int|
            0 <= i < processes.len() && processes[i].pid == s.chart[k].pid
                && processes[i].arrival_time <= s.chart[k].start && processes[i].burst_time > 0 && (
            !preemptive ==> s.chart[k].end - s.chart[k].start == processes[i].burst_time)
    &&& preemptive ==> forall|k: int|
        0 <= k < s.chart.len() - 1 ==> !((#[trigger] s.chart[k]).pid == s.chart[k + 1].pid
            && s.chart[k].end == s.chart[k + 1].start)
    &&& forall|i: int|
        0 <= i < processes.len() ==> (#[trigger] s.procs[i]).remaining_time
            <= processes[i].burst_time && (!preemptive ==> s.procs[i].remaining_time == 0
            || s.procs[i].remaining_time == processes[i].burst_time)
}

/// With distinct pids: no fault; each process has run for its burst less
/// its remaining time; the CPU has been busy for the total less what remains.
pub open spec fn prio_runs_inv(processes: Seq<Process>, s: PrioState) -> bool {
    distinct_pids(processes) ==> {
        &&& !s.fault
        &&& busy_time(s.chart) == s.total - sum_remaining(s.procs)
        &&& forall|i: int|
            0 <= i < processes.len() ==> run_time(s.chart, (#[trigger] processes[i]).pid)
                == processes[i].burst_time - s.procs[i].remaining_time
    }
}

proof fn lemma_extend_chart(c: Seq<GanttSegment>, pid: u32, t: int)
    requires
        0 <= t,
        t + 1 <= u32::MAX,
        chart_end(c) <= t,
    ensures
        ({
            let c2 = extend_chart(c, pid, t);
            let merged = c.len() > 0 && c.last().pid == pid && c.last().end == t;
            &&& c2.len() == if merged { c.len() } else { c.len() + 1 }
            &&& forall|m: int| 0 <= m < c2.len() - 1 ==> #[trigger] c2[m] == c[m]
            &&& c2.last().pid == pid
            &&& c2.last().end == t + 1
            &&& c2.last().start == if merged { c.last().start as int } else { t }
            &&& forall|x: u32| #[trigger] run_time(c2, x) == run_time(c, x) + if x == pid { 1int } else { 0int }
            &&& busy_time(c2) == busy_time(c) + 1
        }),
{
    let merged = c.len() > 0 && c.last().pid == pid && c.last().end == t;
    let c2 = extend_chart(c, pid, t);
    if merged {
        assert(c2.drop_last() =~= c.drop_last());
    } else {
        assert(c2.drop_last() =~= c);
    }
}

#[verifier::spinoff_prover]
#[verifier::rlimit(60)]
proof fn lemma_step_chart(preemptive: bool, processes: Seq<Process>, s: PrioState)
    requires
        prio_inv(processes, s),
        prio_chart_inv(processes, preemptive, s),
        prio_step(preemptive, s).time <= u32::MAX,
    ensures
        prio_chart_inv(processes, preemptive, prio_step(preemptive, s)),
{
    let s2 = prio_step(preemptive, s);
    lemma_step(preemptive, processes, s);
    if !prio_done(s) {
        let k = pick_priority(s.procs, s.time);
        lemma_pick_priority(s.procs, s.time);
        if k >= 0 && !s2.fault {
            let p = s.procs[k];
            lemma_first_with_pid(s.procs, p.pid);
            let j = first_with_pid(s.procs, p.pid);
            let c = s.chart;
            let c2 = s2.chart;
            assert(p.pid == processes[k].pid && p.arrival_time == processes[k].arrival_time
                && p.burst_time == processes[k].burst_time);
            assert(p.remaining_time <= processes[k].burst_time);
            assert(s.procs[j].remaining_time <= processes[j].burst_time);
            assert forall|i: int| 0 <= i < processes.len() implies (#[trigger] s2.procs[i]).remaining_time
                <= processes[i].burst_time && (!preemptive ==> s2.procs[i].remaining_time == 0
                || s2.procs[i].remaining_time == processes[i].burst_time) by {
                if i != j {
                    assert(s2.procs[i] == s.procs[i]);
                }
            }
            if preemptive {
                lemma_extend_chart(c, p.pid, s.time);
                let merged = c.len() > 0 && c.last().pid == p.pid && c.last().end == s.time;
                let n = c2.len() - 1;
                assert forall|m: int|
                    #![trigger c2[m]]
                    0 <= m < c2.len() implies exists|i: int|
                        0 <= i < processes.len() && processes[i].pid == c2[m].pid
                            && processes[i].arrival_time <= c2[m].start && processes[i].burst_time
                            > 0 && (!preemptive ==> c2[m].end - c2[m].start
                            == processes[i].burst_time) by {
                    if m < n {
                        assert(c2[m] == c[m]);
                    } else if merged {
                        assert(c[n].pid == c2[m].pid && c[n].start == c2[m].start);
                    } else {
                        assert(processes[k].pid == c2[m].pid);
                    }
                }
                assert forall|a: int| 0 <= a < c2.len() implies (#[trigger] c2[a]).start < c2[a].end by {
                    if a < n {
                        assert(c2[a] == c[a]);
                    }
                }
                assert forall|a: int, b: int| 0 <= a < b < c2.len() implies (#[trigger] c2[a]).end
                    <= (#[trigger] c2[b]).start by {
                    assert(c2[a] == c[a]);
                    if b < n {
                        assert(c2[b] == c[b]);
                    } else if merged {
                        assert(c[a].end <= c[n].start);
                    } else {
                        assert(c[a].end <= c.last().end);
                    }
                }
                assert forall|m: int| 0 <= m < c2.len() - 1 implies !((#[trigger] c2[m]).pid
                    == c2[m + 1].pid && c2[m].end == c2[m + 1].start) by {
                    assert(c2[m] == c[m]);
                    if m + 1 < n {
                        assert(c2[m + 1] == c[m + 1]);
                    } else if merged {
                        assert(c[m + 1].start == c2[m + 1].start && c[m + 1].pid == c2[m + 1].pid);
                    } else {
                        assert(c[m] == c.last());
                    }
                }
            } else {
                let seg = segment(p.pid, s.time, s.time + p.remaining_time);
                assert(c2 == c.push(seg));
                assert(seg.start == s.time && seg.end == s.time + p.remaining_time);
                assert(p.remaining_time == processes[k].burst_time);
                assert forall|m: int|
                    #![trigger c2[m]]
                    0 <= m < c2.len() implies exists|i: int|
                        0 <= i < processes.len() && processes[i].pid == c2[m].pid
                            && processes[i].arrival_time <= c2[m].start && processes[i].burst_time
                            > 0 && (!preemptive ==> c2[m].end - c2[m].start
                            == processes[i].burst_time) by {
                    if m < c.len() {
                        assert(c2[m] == c[m]);
                    } else {
                        assert(processes[k].pid == c2[m].pid);
                    }
                }
                assert forall|a: int| 0 <= a < c2.len() implies (#[trigger] c2[a]).start < c2[a].end by {
                    if a < c.len() {
                        assert(c2[a] == c[a]);
                    }
                }
                assert forall|a: int, b: int| 0 <= a < b < c2.len() implies (#[trigger] c2[a]).end
                    <= (#[trigger] c2[b]).start by {
                    assert(c2[a] == c[a]);
                    if b < c.len() {
                        assert(c2[b] == c[b]);
                    } else {
                        assert(c[a].end <= c.last().end);
                    }
                }
            }
        }
    }
}

proof fn lemma_step_runs(preemptive: bool, processes: Seq<Process>, s: PrioState)
    requires
        prio_inv(processes, s),
        prio_runs_inv(processes, s),
        prio_step(preemptive, s).time <= u32::MAX,
    ensures
        prio_runs_inv(processes, prio_step(preemptive, s)),
{
    let s2 = prio_step(preemptive, s);
    if !prio_done(s) && distinct_pids(processes) {
        let k = pick_priority(s.procs, s.time);
        lemma_pick_priority(s.procs, s.time);
        if k >= 0 {
            let p = s.procs[k];
            lemma_procs_distinct(processes, s);
            lemma_first_with_pid_distinct(s.procs, k);
            assert(p.pid == processes[k].pid);
            if preemptive {
                lemma_extend_chart(s.chart, p.pid, s.time);
                lemma_sum_remaining_update(s.procs, k, with_remaining(p, p.remaining_time - 1));
            } else {
                let seg = segment(p.pid, s.time, s.time + p.remaining_time);
                assert(s2.chart.drop_last() =~= s.chart);
                assert(seg.end - seg.start == p.remaining_time);
                lemma_sum_remaining_update(s.procs, k, with_remaining(p, 0));
            }
            assert forall|i: int| 0 <= i < processes.len() implies run_time(
                s2.chart,
                (#[trigger] processes[i]).pid,
            ) == processes[i].burst_time - s2.procs[i].remaining_time by {
                assert(run_time(s.chart, processes[i].pid) == processes[i].burst_time
                    - s.procs[i].remaining_time);
                if i != k {
                    assert(s2.procs[i] == s.procs[i]);
                    if i < k {
                        assert(processes[i].pid != processes[k].pid);
                    } else {
                        assert(processes[k].pid != processes[i].pid);
                    }
                }
            }
        }
    }
}

proof fn lemma_chart_along_run(
    preemptive: bool,
    processes: Seq<Process>,
    init: PrioState,
    j: nat,
    k: nat,
)
    requires
        prio_inv(processes, init),
        prio_chart_inv(processes, preemptive, init),
        prio_runs_inv(processes, init),
        prio_steps(preemptive, init, k).time <= u32::MAX,
        j <= k,
    ensures
        prio_chart_inv(processes, preemptive, prio_steps(preemptive, init, j)),
        prio_runs_inv(processes, prio_steps(preemptive, init, j)),
    decreases j,
{
    if j > 0 {
        let i = (j - 1) as nat;
        lemma_chart_along_run(preemptive, processes, init, i, k);
        lemma_steps_succ(preemptive, init, i);
        lemma_steps_inv(preemptive, processes, init, i, i);
        lemma_steps_inv(preemptive, processes, init, j, k);
        lemma_step_chart(preemptive, processes, prio_steps(preemptive, init, i));
        lemma_step_runs(preemptive, processes, prio_steps(preemptive, init, i));
    }
}

/// Priority scheduling runs its segments in time order, each of positive
/// length, none before its process arrives and each of a process with a
/// positive burst; preemptive charts merge the consecutive units of one
/// process; without preemption each segment runs a process for its whole
/// burst; with distinct pids every process runs, over all its segments,
/// exactly its burst time.
pub proof fn lemma_priority_chart(preemptive: bool, processes: Seq<Process>)
    requires
        (PriorityScheduler { preemptive }).accepts(processes),
    ensures
        ({
            let r = (PriorityScheduler { preemptive }).chart_of(processes);
            &&& chart_ordered(r)
            &&& forall|k: int| 0 <= k < r.len() ==> (#[trigger] r[k]).start < r[k].end
            &&& forall|k: int|
                #![trigger r[k]]
                0 <= k < r.len() ==> exists|i: int|
                    0 <= i < processes.len() && processes[i].pid == r[k].pid
                        && processes[i].arrival_time <= r[k].start && processes[i].burst_time > 0
                        && (!preemptive ==> r[k].end - r[k].start == processes[i].burst_time)
            &&& preemptive ==> forall|k: int|
                0 <= k < r.len() - 1 ==> !((#[trigger] r[k]).pid == r[k + 1].pid && r[k].end
                    == r[k + 1].start)
            &&& distinct_pids(processes) ==> forall|i: int|
                0 <= i < processes.len() ==> run_time(r, (#[trigger] processes[i]).pid)
                    == processes[i].burst_time
        }),
{
    let init = prio_init(processes);
    lemma_reset_all_sum(processes);
    assert(prio_inv(processes, init));
    assert forall|i: int| 0 <= i < processes.len() implies (#[trigger] init.procs[i]).remaining_time
        == processes[i].burst_time by {}
    assert(prio_chart_inv(processes, preemptive, init));
    assert(prio_runs_inv(processes, init));
    let kk = choose|k: nat|
        {
            let s = #[trigger] prio_steps(preemptive, init, k);
            prio_done(s) && !s.fault && s.time <= u32::MAX
        };
    let t = prio_turns(preemptive, processes);
    if t <= kk {
        lemma_steps_done(preemptive, init, t, kk);
    } else {
        lemma_steps_done(preemptive, init, kk, t);
    }
    lemma_chart_along_run(preemptive, processes, init, kk, kk);
    lemma_steps_inv(preemptive, processes, init, kk, kk);
    let fin = prio_steps(preemptive, init, kk);
    if distinct_pids(processes) {
        assert forall|i: int| 0 <= i < processes.len() implies run_time(
            fin.chart,
            (#[trigger] processes[i]).pid,
        ) == processes[i].burst_time by {
            lemma_remaining_le_sum(fin.procs, i);
        }
    }
}

/// Two states at the same time, with the same chart, total and fault, whose
/// processes are the same up to order.
pub open spec fn prio_match(s1: PrioState, s2: PrioState) -> bool {
    &&& s1.time == s2.time
    &&& s1.chart == s2.chart
    &&& s1.total == s2.total
    &&& s1.fault == s2.fault
    &&& matched(s1.procs, s2.procs)
}

/// With distinct pids, two different processes are ordered one way or the other.
proof fn lemma_ranks_total(x: Process, y: Process)
    requires
        x.pid != y.pid,
    ensures
        ranks_before(x, y) || ranks_before(y, x),
{
}

/// Matched processes lead to the same choice.
proof fn lemma_pick_matched(a: Seq<Process>, b: Seq<Process>, t: int)
    requires
        matched(a, b),
    ensures
        pick_priority(a, t) < 0 <==> pick_priority(b, t) < 0,
        pick_priority(a, t) >= 0 ==> a[pick_priority(a, t)] == b[pick_priority(b, t)],
{
    let ka = pick_priority(a, t);
    let kb = pick_priority(b, t);
    lemma_pick_priority_least(a, t);
    lemma_pick_priority_least(b, t);
    lemma_pick_priority(a, t);
    lemma_pick_priority(b, t);
    if ka >= 0 {
        assert(b.contains(a[ka]));
        let j = choose|j: int| 0 <= j < b.len() && b[j] == a[ka];
        assert(is_ready(b[j], t));
    }
    if kb >= 0 {
        assert(a.contains(b[kb]));
        let i = choose|i: int| 0 <= i < a.len() && a[i] == b[kb];
        assert(is_ready(a[i], t));
    }
    if ka >= 0 && kb >= 0 {
        assert(a.contains(b[kb]));
        let i = choose|i: int| 0 <= i < a.len() && a[i] == b[kb];
        assert(b.contains(a[ka]));
        let j = choose|j: int| 0 <= j < b.len() && b[j] == a[ka];
        assert(!ranks_before(a[i], a[ka]));
        assert(!ranks_before(b[j], b[kb]));
        if a[ka].pid != b[kb].pid {
            lemma_ranks_total(a[ka], b[kb]);
        }
        lemma_matched_pid(a, b, ka, kb);
    }
}

proof fn lemma_step_matched(preemptive: bool, s1: PrioState, s2: PrioState)
    requires
        prio_match(s1, s2),
    ensures
        prio_done(s1) <==> prio_done(s2),
        prio_match(prio_step(preemptive, s1), prio_step(preemptive, s2)),
{
    if !prio_done(s1) {
        lemma_pick_matched(s1.procs, s2.procs, s1.time);
        lemma_pick_priority(s1.procs, s1.time);
        lemma_pick_priority(s2.procs, s2.time);
        let k1 = pick_priority(s1.procs, s1.time);
        let k2 = pick_priority(s2.procs, s2.time);
        if k1 >= 0 {
            let p = s1.procs[k1];
            lemma_first_with_pid_distinct(s1.procs, k1);
            lemma_first_with_pid_distinct(s2.procs, k2);
            if preemptive {
                lemma_matched_update(s1.procs, s2.procs, k1, k2, with_remaining(p, p.remaining_time - 1));
            } else {
                lemma_matched_update(s1.procs, s2.procs, k1, k2, with_remaining(p, 0));
            }
        }
    }
}

proof fn lemma_steps_matched(preemptive: bool, s1: PrioState, s2: PrioState, k: nat)
    requires
        prio_match(s1, s2),
    ensures
        prio_match(prio_steps(preemptive, s1, k), prio_steps(preemptive, s2, k)),
    decreases k,
{
    if k > 0 {
        lemma_step_matched(preemptive, s1, s2);
        lemma_steps_matched(
            preemptive,
            prio_step(preemptive, s1),
            prio_step(preemptive, s2),
            (k - 1) as nat,
        );
    }
}

/// With distinct pids, the priority chart does not depend on the order of
/// the processes nor on their remaining times: processes that are the same
/// up to order and remaining time are scheduled alike.
pub proof fn lemma_priority_order_free(
    preemptive: bool,
    processes: Seq<Process>,
    other: Seq<Process>,
)
    requires
        distinct_pids(processes),
        reset_all(other).to_multiset() == reset_all(processes).to_multiset(),
        (PriorityScheduler { preemptive }).accepts(processes),
    ensures
        (PriorityScheduler { preemptive }).accepts(other),
        (PriorityScheduler { preemptive }).chart_of(other) == (PriorityScheduler {
            preemptive,
        }).chart_of(processes),
{
    let i1 = prio_init(processes);
    let i2 = prio_init(other);
    assert(distinct_pids(reset_all(processes))) by {
        assert forall|x: int, y: int| 0 <= x < y < reset_all(processes).len() implies (
        #[trigger] reset_all(processes)[x]).pid != (#[trigger] reset_all(processes)[y]).pid by {
            assert(processes[x].pid != processes[y].pid);
        }
    }
    lemma_matched_from_multiset(reset_all(processes), reset_all(other));
    lemma_reset_all_sum(processes);
    lemma_reset_all_sum(other);
    lemma_matched_sum(reset_all(processes), reset_all(other));
    assert(prio_match(i1, i2));
    let kk = choose|k: nat|
        {
            let s = #[trigger] prio_steps(preemptive, i1, k);
            prio_done(s) && !s.fault && s.time <= u32::MAX
        };
    lemma_steps_matched(preemptive, i1, i2, kk);
    let sched = PriorityScheduler { preemptive };
    let f2 = prio_steps(sched.preemptive, prio_init(other), kk);
    assert(prio_done(f2) && !f2.fault && f2.time <= u32::MAX);
    let t1 = prio_turns(preemptive, processes);
    let t2 = prio_turns(preemptive, other);
    if t1 <= kk {
        lemma_steps_done(preemptive, i1, t1, kk);
    } else {
        lemma_steps_done(preemptive, i1, kk, t1);
    }
    if t2 <= kk {
        lemma_steps_done(preemptive, i2, t2, kk);
    } else {
        lemma_steps_done(preemptive, i2, kk, t2);
    }
}

/// The progress measure of the simulation: the clock stays within the last
/// arrival plus the work done.
pub open spec fn prio_progress(processes: Seq<Process>, a: int, s: PrioState) -> bool {
    let work = sum_bursts(processes) - sum_remaining(s.procs);
    &&& 0 <= work
    &&& s.time <= a + work
}

proof fn lemma_step_progress(preemptive: bool, processes: Seq<Process>, a: int, s: PrioState)
    requires
        prio_inv(processes, s),
        prio_progress(processes, a, s),
        prio_runs_inv(processes, s),
        distinct_pids(processes),
        arrivals_within(processes, a),
        !prio_done(s),
    ensures
        prio_progress(processes, a, prio_step(preemptive, s)),
{
    let k = pick_priority(s.procs, s.time);
    lemma_pick_priority(s.procs, s.time);
    lemma_sum_remaining_nonneg(s.procs);
    if k < 0 {
        lemma_sum_remaining_positive(s.procs);
        let i = choose|i: int| 0 <= i < s.procs.len() && (#[trigger] s.procs[i]).remaining_time > 0;
        assert(!is_ready(s.procs[i], s.time));
        assert(s.procs[i].arrival_time == processes[i].arrival_time);
    } else {
        let p = s.procs[k];
        lemma_procs_distinct(processes, s);
        lemma_first_with_pid_distinct(s.procs, k);
        if preemptive {
            lemma_sum_remaining_update(s.procs, k, with_remaining(p, p.remaining_time - 1));
        } else {
            lemma_sum_remaining_update(s.procs, k, with_remaining(p, 0));
        }
    }
}

proof fn lemma_prio_terminates(
    preemptive: bool,
    processes: Seq<Process>,
    a: int,
    s: PrioState,
    m: nat,
)
    requires
        prio_inv(processes, s),
        prio_progress(processes, a, s),
        prio_runs_inv(processes, s),
        distinct_pids(processes),
        arrivals_within(processes, a),
        a + sum_bursts(processes) <= u32::MAX,
        m >= a + sum_bursts(processes) + 1 - s.time,
    ensures
        ({
            let f = prio_steps(preemptive, s, m);
            prio_done(f) && !f.fault && f.time <= u32::MAX
        }),
    decreases m,
{
    lemma_sum_remaining_nonneg(s.procs);
    if prio_done(s) {
        lemma_steps_done(preemptive, s, 0, m);
    } else {
        lemma_step_progress(preemptive, processes, a, s);
        lemma_step(preemptive, processes, s);
        lemma_sum_remaining_nonneg(prio_step(preemptive, s).procs);
        lemma_step_runs(preemptive, processes, s);
        lemma_prio_terminates(preemptive, processes, a, prio_step(preemptive, s), (m - 1) as nat);
    }
}

/// With distinct pids, priority scheduling completes whenever the last
/// arrival plus the total burst time fits in `u32`.
pub proof fn lemma_priority_accepts(preemptive: bool, processes: Seq<Process>, a: int)
    requires
        distinct_pids(processes),
        arrivals_within(processes, a),
        0 <= a,
        a + sum_bursts(processes) <= u32::MAX,
    ensures
        (PriorityScheduler { preemptive }).accepts(processes),
{
    let init = prio_init(processes);
    lemma_reset_all_sum(processes);
    assert(prio_inv(processes, init));
    assert(prio_progress(processes, a, init));
    assert(prio_runs_inv(processes, init));
    let m = (a + sum_bursts(processes) + 1) as nat;
    lemma_prio_terminates(preemptive, processes, a, init, m);
    let sched = PriorityScheduler { preemptive };
    let f = prio_steps(sched.preemptive, prio_init(processes), m);
    assert(prio_done(f) && !f.fault && f.time <= u32::MAX);
}

fn ranks_before_exec(a: &Process, b: &Process) -> (r: bool)
    ensures
        r == ranks_before(*a, *b),
{
    a.priority < b.priority || (a.priority == b.priority && (a.arrival_time < b.arrival_time || (
    a.arrival_time == b.arrival_time && a.pid < b.pid)))
}

fn find_highest_priority(s: &Vec<Process>, t: u32) -> (r: Option<usize>)
    ensures
        match r {
            Some(k) => k == pick_priority(s@, t as int),
            None => pick_priority(s@, t as int) < 0,
        },
{
    let n = s.len();
    let mut best: Option<usize> = None;
    let mut i: usize = 0;
    while i < n
        invariant
            n == s@.len(),
            i <= n,
            match best {
                Some(k) => k == pick_priority(s@.take(i as int), t as int),
                None => pick_priority(s@.take(i as int), t as int) < 0,
            },
        decreases n - i,
    {
        proof {
            let pre = s@.take(i + 1);
            assert(pre.drop_last() =~= s@.take(i as int));
            lemma_pick_priority(s@.take(i as int), t as int);
            assert(pre.last() == s@[i as int]);
            if let Some(k) = best {
                assert(pre[k as int] == s@[k as int]);
            }
        }
        if s[i].arrival_time <= t && s[i].remaining_time > 0 {
            match best {
                None => {
                    best = Some(i);
                },
                Some(k) => {
                    if ranks_before_exec(&s[i], &s[k]) {
                        best = Some(i);
                    }
                },
            }
        }
        i += 1;
    }
    proof {
        assert(s@.take(n as int) =~= s@);
    }
    best
}

fn find_first_with_pid(s: &Vec<Process>, pid: u32) -> (r: Option<usize>)
    ensures
        match r {
            Some(k) => k == first_with_pid(s@, pid),
            None => first_with_pid(s@, pid) < 0,
        },
{
    let n = s.len();
    let mut i: usize = 0;
    while i < n
        invariant
            n == s@.len(),
            i <= n,
            first_with_pid(s@.take(i as int), pid) < 0,
        decreases n - i,
    {
        proof {
            let pre = s@.take(i + 1);
            assert(pre.drop_last() =~= s@.take(i as int));
            assert(pre.last() == s@[i as int]);
        }
        if s[i].pid == pid {
            proof {
                lemma_first_with_pid_extend(s@, i as int, pid);
            }
            return Some(i);
        }
        i += 1;
    }
    proof {
        assert(s@.take(n as int) =~= s@);
    }
    None
}

proof fn lemma_first_with_pid_extend(s: Seq<Process>, i: int, pid: u32)
    requires
        0 <= i < s.len(),
        first_with_pid(s.take(i), pid) < 0,
        s[i].pid == pid,
    ensures
        first_with_pid(s, pid) == i,
    decreases s.len(),
{
    if i + 1 < s.len() {
        assert(s.drop_last().take(i) =~= s.take(i));
        lemma_first_with_pid_extend(s.drop_last(), i, pid);
    } else {
        assert(s.drop_last() =~= s.take(i));
    }
}

impl CpuScheduler for PriorityScheduler {
    /// The total burst fits in `u32`, and the simulation comes to an end
    /// without a fault and with its time within `u32`.
    open spec fn accepts(&self, processes: Seq<Process>) -> bool {
        &&& sum_bursts(processes) <= u32::MAX
        &&& exists|k: nat|
            {
                let s = #[trigger] prio_steps(self.preemptive, prio_init(processes), k);
                prio_done(s) && !s.fault && s.time <= u32::MAX
            }
    }

    /// The chart at the end of the simulation, once the CPU has been busy
    /// for the total burst time.
    open spec fn chart_of(&self, processes: Seq<Process>) -> Seq<GanttSegment> {
        prio_steps(self.preemptive, prio_init(processes), prio_turns(self.preemptive, processes)).chart
    }

    fn schedule(&self, processes: &[Process]) -> (chart: GanttChart) {
        let ghost init = prio_init(processes@);
        let ghost pre = self.preemptive;
        if processes.len() == 0 {
            proof {
                assert(prio_done(init));
                lemma_steps_done(pre, init, 0, prio_turns(pre, processes@));
            }
            return GanttChart::new();
        }
        let mut procs: Vec<Process> = vstd::slice::slice_to_vec(processes);
        let n = procs.len();
        let mut r: usize = 0;
        while r < n
            invariant
                n == processes@.len(),
                procs@.len() == n,
                r <= n,
                forall|i: int| 0 <= i < r ==> procs@[i] == reset_all(processes@)[i],
                forall|i: int| r <= i < n ==> procs@[i] == processes@[i],
            decreases n - r,
        {
            let mut p = procs[r];
            p.reset_remaining();
            procs.set(r, p);
            r += 1;
        }
        proof {
            assert(procs@ =~= reset_all(processes@));
        }
        let mut chart = GanttChart::new();
        let mut current_time: u32 = 0;
        let mut total_burst: u32 = 0;
        let mut i: usize = 0;
        while i < n
            invariant
                n == procs@.len(),
                n == processes@.len(),
                i <= n,
                sum_bursts(processes@) <= u32::MAX,
                total_burst == sum_bursts(processes@.take(i as int)),
                forall|m: int| 0 <= m < n ==> procs@[m].burst_time == #[trigger] processes@[m].burst_time,
            decreases n - i,
        {
            proof {
                lemma_sum_bursts_prefix(processes@, i as int);
                assert(procs@[i as int].burst_time == processes@[i as int].burst_time);
            }
            total_burst = total_burst + procs[i].burst_time;
            i += 1;
        }
        proof {
            assert(processes@.take(n as int) =~= processes@);
        }
        // The time the CPU has been busy so far.
        let mut busy: u32 = 0;
        let ghost kk: nat = choose|k: nat|
            {
                let s = #[trigger] prio_steps(pre, init, k);
                prio_done(s) && !s.fault && s.time <= u32::MAX
            };
        let ghost mut j: nat = 0;
        proof {
            assert(prio_inv(processes@, init));
            lemma_steps_inv(pre, processes@, init, kk, kk);
        }
        while busy < total_burst
            invariant
                n == procs@.len(),
                total_burst == sum_bursts(processes@),
                busy == busy_time(chart.segments@),
                busy <= current_time,
                prio_inv(processes@, init),
                prio_done(prio_steps(pre, init, kk)),
                !prio_steps(pre, init, kk).fault,
                prio_steps(pre, init, kk).time <= u32::MAX,
                prio_steps(pre, init, j) == (PrioState {
                    procs: procs@,
                    time: current_time as int,
                    chart: chart.segments@,
                    total: total_burst as int,
                    fault: false,
                }),
                j <= kk,
                pre == self.preemptive,
            decreases kk - j,
        {
            let ghost s = prio_steps(pre, init, j);
            proof {
                lemma_steps_inv(pre, processes@, init, j, j);
                if j == kk {
                    assert(false);
                }
                lemma_steps_inv(pre, processes@, init, j + 1, kk);
                lemma_steps_succ(pre, init, j);
                if prio_steps(pre, init, j + 1).fault {
                    lemma_steps_done(pre, init, j + 1, kk);
                }
                lemma_pick_priority(s.procs, s.time);
            }
            let chosen = find_highest_priority(&procs, current_time);
            match chosen {
                None => {
                    current_time += 1;
                },
                Some(k) => {
                    let pid = procs[k].pid;
                    proof {
                        lemma_first_with_pid(s.procs, pid);
                    }
                    let j_idx = find_first_with_pid(&procs, pid).unwrap();
                    let mut q = procs[j_idx];
                    if self.preemptive {
                        // Run for one unit.
                        proof {
                            lemma_extend_chart(s.chart, pid, s.time);
                        }
                        q.remaining_time = q.remaining_time - 1;
                        procs.set(j_idx, q);
                        let len = chart.segments.len();
                        if len > 0 && chart.segments[len - 1].pid == pid && chart.segments[len
                            - 1].end == current_time {
                            let last = chart.segments[len - 1];
                            chart.segments.set(
                                len - 1,
                                GanttSegment { pid: last.pid, start: last.start, end: current_time + 1 },
                            );
                        } else {
                            chart.add(pid, current_time, current_time + 1);
                        }
                        busy = busy + 1;
                        current_time += 1;
                    } else {
                        // Run to completion.
                        let burst = procs[k].remaining_time;
                        q.remaining_time = 0;
                        procs.set(j_idx, q);
                        let ghost before = chart.segments@;
                        chart.add(pid, current_time, current_time + burst);
                        proof {
                            assert(chart.segments@.drop_last() =~= before);
                        }
                        busy = busy + burst;
                        current_time += burst;
                    }
                },
            }
            proof {
                j = j + 1;
            }
        }
        proof {
            let k = prio_turns(pre, processes@);
            if j <= k {
                lemma_steps_done(pre, init, j, k);
            } else {
                lemma_steps_done(pre, init, k, j);
            }
        }
        chart
    }
}

} // verus!
