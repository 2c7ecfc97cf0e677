//! Round Robin CPU scheduling.
use vstd::prelude::*;
use crate::fcfs::{FcfsScheduler, fcfs_finish, fcfs_from, start_after};
use crate::gantt::{GanttChart, GanttSegment, chart_ordered, run_time, segment};
use crate::order::{
    arrival_order, lemma_arrival_order, lemma_arrival_order_covers, lemma_arrival_order_distinct,
    lemma_arrival_order_free, lemma_arrival_order_member, lemma_arrival_order_totals,
    sort_by_arrival,
};
use crate::{
    CpuScheduler, Process, arrivals_within, distinct_pids, jobs, lemma_sum_remaining_nonneg,
    lemma_sum_remaining_update, sum_bursts, sum_remaining,
};
use std::collections::VecDeque;

verus! {

/// Round Robin scheduler with configurable time quantum.
#[derive(Debug)]
pub struct RoundRobinScheduler {
    pub quantum: u32,
}

impl RoundRobinScheduler {
    pub fn new(quantum: u32) -> (s: Self)
        ensures
            s.quantum == quantum,
    {
        RoundRobinScheduler { quantum }
    }
}

impl Default for RoundRobinScheduler {
    fn default() -> (s: Self)
        ensures
            s.quantum == 2,
    {
        Self::new(2)
    }
}

/// The state of the Round Robin simulation between two turns.
pub struct RrState {
    /// The processes in arrival order, with their remaining times.
    pub procs: Seq<Process>,
    /// The ready queue: indices into `procs`.
    pub queue: Seq<usize>,
    /// The index of the first process that has not entered the queue yet.
    pub next: int,
    /// The current time.
    pub time: int,
    /// The chart so far.
    pub chart: Seq<GanttSegment>,
}

/// `p` with remaining time `r`.
pub open spec fn with_remaining(p: Process, r: int) -> Process {
    Process { remaining_time: r as u32, ..p }
}

/// The processes with their remaining times reset to their bursts.
pub open spec fn reset_all(s: Seq<Process>) -> Seq<Process> {
    Seq::new(s.len(), |i: int| with_remaining(s[i], s[i].burst_time as int))
}

/// After a reset, the remaining times add up to the total burst.
pub proof fn lemma_reset_all_sum(s: Seq<Process>)
    ensures
        sum_remaining(reset_all(s)) == sum_bursts(s),
        reset_all(s).len() == s.len(),
    decreases s.len(),
{
    if s.len() > 0 {
        lemma_reset_all_sum(s.drop_last());
        assert(reset_all(s).drop_last() =~= reset_all(s.drop_last()));
    }
}

/// Appends to the queue, in order, every process from `next` on that has
/// arrived by `t`; returns the queue and the new `next`.
pub open spec fn rr_admit(procs: Seq<Process>, queue: Seq<usize>, next: int, t: int) -> (Seq<
    usize,
>, int)
    decreases procs.len() - next,
{
    if 0 <= next < procs.len() && procs[next].arrival_time <= t {
        rr_admit(procs, queue.push(next as usize), next + 1, t)
    } else {
        (queue, next)
    }
}

/// Nothing is left to run.
pub open spec fn rr_done(s: RrState) -> bool {
    s.queue.len() == 0 && s.next >= s.procs.len()
}

/// The state before the first turn.
pub open spec fn rr_init(processes: Seq<Process>) -> RrState {
    let procs = reset_all(arrival_order(processes));
    let (queue, next) = rr_admit(procs, Seq::empty(), 0, 0);
    RrState { procs, queue, next, time: 0, chart: Seq::empty() }
}

/// One turn: when the queue is empty, jump to the next arrival; the process
/// at the front runs for the quantum or what it has left, whichever is less;
/// the processes that have arrived by then enter the queue, and then the
/// process goes to the back if it has time left.
pub open spec fn rr_step(quantum: u32, s: RrState) -> RrState {
    if rr_done(s) {
        s
    } else {
        let t1 = if s.queue.len() == 0 {
            s.procs[s.next].arrival_time as int
        } else {
            s.time
        };
        let (q1, n1) = if s.queue.len() == 0 {
            rr_admit(s.procs, s.queue, s.next, t1)
        } else {
            (s.queue, s.next)
        };
        let idx = q1[0] as int;
        let p = s.procs[idx];
        let e: int = if quantum < p.remaining_time {
            quantum as int
        } else {
            p.remaining_time as int
        };
        let procs = s.procs.update(idx, with_remaining(p, p.remaining_time - e));
        let (q3, n3) = rr_admit(procs, q1.drop_first(), n1, t1 + e);
        let queue = if p.remaining_time - e > 0 {
            q3.push(idx as usize)
        } else {
            q3
        };
        RrState { procs, queue, next: n3, time: t1 + e, chart: s.chart.push(segment(p.pid, t1, t1 + e)) }
    }
}

/// The state after `k` turns.
pub open spec fn rr_steps(quantum: u32, s: RrState, k: nat) -> RrState
    decreases k,
{
    if k == 0 {
        s
    } else {
        rr_steps(quantum, rr_step(quantum, s), (k - 1) as nat)
    }
}

/// A number of turns after which the simulation is done.
pub open spec fn rr_turns(quantum: u32, processes: Seq<Process>) -> nat {
    choose|k: nat| rr_done(rr_steps(quantum, rr_init(processes), k))
}

/// The invariant of the states that the simulation reaches.
pub open spec fn rr_inv(order: Seq<Process>, s: RrState) -> bool {
    &&& s.procs.len() == order.len()
    &&& forall|i: int|
        0 <= i < order.len() ==> (#[trigger] s.procs[i]).pid == order[i].pid
            && s.procs[i].arrival_time == order[i].arrival_time && s.procs[i].burst_time
            == order[i].burst_time && s.procs[i].priority == order[i].priority
    &&& 0 <= s.next <= s.procs.len()
    &&& forall|i: int| 0 <= i < s.queue.len() ==> (#[trigger] s.queue[i]) < s.next
    &&& s.next < s.procs.len() ==> s.procs[s.next].arrival_time > s.time
    &&& 0 <= s.time
}

proof fn lemma_admit(procs: Seq<Process>, queue: Seq<usize>, next: int, t: int)
    requires
        0 <= next <= procs.len(),
        procs.len() <= usize::MAX,
    ensures
        ({
            let (q, n) = rr_admit(procs, queue, next, t);
            &&& next <= n <= procs.len()
            &&& n < procs.len() ==> procs[n].arrival_time > t
            &&& forall|i: int| next <= i < n ==> (#[trigger] procs[i]).arrival_time <= t
            &&& q.len() == queue.len() + (n - next)
            &&& forall|i: int| 0 <= i < queue.len() ==> q[i] == queue[i]
            &&& forall|i: int| queue.len() <= i < q.len() ==> q[i] == next + (i - queue.len())
        }),
    decreases procs.len() - next,
{
    if 0 <= next < procs.len() && procs[next].arrival_time <= t {
        lemma_admit(procs, queue.push(next as usize), next + 1, t);
    }
}

proof fn lemma_step(quantum: u32, order: Seq<Process>, s: RrState)
    requires
        rr_inv(order, s),
        order.len() <= usize::MAX,
    ensures
        rr_inv(order, rr_step(quantum, s)),
        s.time <= rr_step(quantum, s).time,
{
    if !rr_done(s) {
        let t1 = if s.queue.len() == 0 {
            s.procs[s.next].arrival_time as int
        } else {
            s.time
        };
        lemma_admit(s.procs, s.queue, s.next, t1);
        let (q1, n1) = if s.queue.len() == 0 {
            rr_admit(s.procs, s.queue, s.next, t1)
        } else {
            (s.queue, s.next)
        };
        let idx = q1[0] as int;
        let p = s.procs[idx];
        let e: int = if quantum < p.remaining_time {
            quantum as int
        } else {
            p.remaining_time as int
        };
        let procs = s.procs.update(idx, with_remaining(p, p.remaining_time - e));
        lemma_admit(procs, q1.drop_first(), n1, t1 + e);
        let s2 = rr_step(quantum, s);
        assert forall|i: int| 0 <= i < order.len() implies (#[trigger] s2.procs[i]).pid
            == order[i].pid && s2.procs[i].arrival_time == order[i].arrival_time
            && s2.procs[i].burst_time == order[i].burst_time && s2.procs[i].priority
            == order[i].priority by {
            assert(s.procs[i].pid == order[i].pid);
        }
        assert forall|i: int| 0 <= i < s2.queue.len() implies (#[trigger] s2.queue[i]) < s2.next by {
            let (q3, n3) = rr_admit(procs, q1.drop_first(), n1, t1 + e);
            if i < q3.len() {
                if i < q1.len() - 1 {
                    assert(q3[i] == q1.drop_first()[i]);
                    assert(q1.drop_first()[i] == q1[i + 1]);
                    if s.queue.len() != 0 {
                        assert(s.queue[i + 1] < s.next);
                    }
                }
            } else {
                if s.queue.len() != 0 {
                    assert(s.queue[0] < s.next);
                }
            }
        }
    }
}

/// Composes turns: one more turn after `k` turns.
proof fn lemma_steps_succ(quantum: u32, s: RrState, k: nat)
    ensures
        rr_steps(quantum, s, k + 1) == rr_step(quantum, rr_steps(quantum, s, k)),
    decreases k,
{
    if k > 0 {
        lemma_steps_succ(quantum, rr_step(quantum, s), (k - 1) as nat);
        assert(rr_steps(quantum, s, k) == rr_steps(quantum, rr_step(quantum, s), (k - 1) as nat));
        assert(rr_steps(quantum, s, k + 1) == rr_steps(quantum, rr_step(quantum, s), k));
    } else {
        assert(rr_steps(quantum, s, 1) == rr_steps(quantum, rr_step(quantum, s), 0));
    }
}

/// Along the run, the invariant holds and time never decreases.
proof fn lemma_steps_inv(quantum: u32, order: Seq<Process>, s: RrState, j: nat, k: nat)
    requires
        rr_inv(order, s),
        order.len() <= usize::MAX,
        j <= k,
    ensures
        rr_inv(order, rr_steps(quantum, s, k)),
        rr_steps(quantum, s, j).time <= rr_steps(quantum, s, k).time,
    decreases k,
{
    if k > 0 {
        lemma_steps_succ(quantum, s, (k - 1) as nat);
        if j < k {
            lemma_steps_inv(quantum, order, s, j, (k - 1) as nat);
        } else {
            lemma_steps_inv(quantum, order, s, (k - 1) as nat, (k - 1) as nat);
        }
        lemma_step(quantum, order, rr_steps(quantum, s, (k - 1) as nat));
    }
}

/// Once done, the run stays where it is.
proof fn lemma_steps_done(quantum: u32, s: RrState, j: nat, k: nat)
    requires
        rr_done(rr_steps(quantum, s, j)),
        j <= k,
    ensures
        rr_steps(quantum, s, k) == rr_steps(quantum, s, j),
    decreases k,
{
    if j < k {
        lemma_steps_done(quantum, s, j, (k - 1) as nat);
        lemma_steps_succ(quantum, s, (k - 1) as nat);
    }
}

/// One turn of Round Robin, while work is left. When the ready queue is
/// empty the CPU idles until the next arrival, and that process runs;
/// otherwise the process at the front of the queue runs from the current
/// time. It runs for the quantum or its remaining time, whichever is less,
/// and goes to the back of the queue, behind the processes that arrived
/// meanwhile, if it has time left.
pub proof fn lemma_rr_decision(quantum: u32, order: Seq<Process>, s: RrState)
    requires
        rr_inv(order, s),
        order.len() <= usize::MAX,
        !rr_done(s),
        rr_step(quantum, s).time <= u32::MAX,
    ensures
        ({
            let s2 = rr_step(quantum, s);
            let idle = s.queue.len() == 0;
            let idx: int = if idle { s.next } else { s.queue[0] as int };
            let t1: int = if idle { s.procs[s.next].arrival_time as int } else { s.time };
            let rem = s.procs[idx].remaining_time;
            let slice: int = if quantum < rem { quantum as int } else { rem as int };
            &&& idle ==> s.time < t1
            &&& 0 <= idx < s.procs.len()
            &&& s2.chart.len() == s.chart.len() + 1
            &&& s2.chart.drop_last() == s.chart
            &&& s2.chart.last().pid == s.procs[idx].pid
            &&& s2.chart.last().start == t1
            &&& s2.chart.last().end - s2.chart.last().start == slice
            &&& s2.time == t1 + slice
            &&& s2.procs[idx].remaining_time == rem - slice
            &&& rem - slice > 0 ==> s2.queue.last() == idx as usize
        }),
{
    let t1 = if s.queue.len() == 0 {
        s.procs[s.next].arrival_time as int
    } else {
        s.time
    };
    lemma_admit(s.procs, s.queue, s.next, t1);
    if s.queue.len() != 0 {
        assert(s.queue[0] < s.next);
    }
    lemma_step(quantum, order, s);
    let s2 = rr_step(quantum, s);
    assert(s2.chart.drop_last() =~= s.chart);
}

/// The ready queue is first in, first out. After a turn, the processes that
/// waited behind the one that ran stay at the front in the same order; the
/// processes that arrived by the end of the turn follow in arrival order,
/// and they are exactly those not yet admitted whose arrival time has
/// passed; the process that ran goes last if it has time left. When the
/// queue was empty, the process that ran is the next to arrive, and those
/// that arrived with it wait behind it in arrival order.
pub proof fn lemma_rr_queue_fifo(quantum: u32, order: Seq<Process>, s: RrState)
    requires
        rr_inv(order, s),
        order.len() <= usize::MAX,
        !rr_done(s),
    ensures
        ({
            let s2 = rr_step(quantum, s);
            let idle = s.queue.len() == 0;
            let idx: int = if idle { s.next } else { s.queue[0] as int };
            let rem = s.procs[idx].remaining_time;
            let slice: int = if quantum < rem { quantum as int } else { rem as int };
            let front: int = if idle { s.next + 1 } else { s.next };
            let waiting: Seq<usize> = if idle { Seq::empty() } else { s.queue.drop_first() };
            let arrived: Seq<usize> = Seq::new((s2.next - front) as nat, |i: int| (front + i) as usize);
            &&& front <= s2.next <= s.procs.len()
            &&& forall|i: int| front <= i < s2.next ==> (#[trigger] s.procs[i]).arrival_time <= s2.time
            &&& s2.next < s.procs.len() ==> s.procs[s2.next].arrival_time > s2.time
            &&& s2.queue == (if rem - slice > 0 {
                (waiting + arrived).push(idx as usize)
            } else {
                waiting + arrived
            })
        }),
{
    let t1 = if s.queue.len() == 0 {
        s.procs[s.next].arrival_time as int
    } else {
        s.time
    };
    lemma_admit(s.procs, s.queue, s.next, t1);
    let (q1, n1) = if s.queue.len() == 0 {
        rr_admit(s.procs, s.queue, s.next, t1)
    } else {
        (s.queue, s.next)
    };
    let idx = q1[0] as int;
    if s.queue.len() != 0 {
        assert(s.queue[0] < s.next);
    }
    let p = s.procs[idx];
    let e: int = if quantum < p.remaining_time {
        quantum as int
    } else {
        p.remaining_time as int
    };
    let procs = s.procs.update(idx, with_remaining(p, p.remaining_time - e));
    lemma_admit(procs, q1.drop_first(), n1, t1 + e);
    let (q3, n3) = rr_admit(procs, q1.drop_first(), n1, t1 + e);
    let s2 = rr_step(quantum, s);
    let idle = s.queue.len() == 0;
    let front: int = if idle { s.next + 1 } else { s.next };
    let waiting: Seq<usize> = if idle { Seq::empty() } else { s.queue.drop_first() };
    let arrived: Seq<usize> = Seq::new((n3 - front) as nat, |i: int| (front + i) as usize);
    assert forall|i: int| front <= i < n3 implies (#[trigger] s.procs[i]).arrival_time <= t1 + e by {
        if i < n1 {
            assert(s.procs[i].arrival_time <= t1);
        } else {
            assert(procs[i].arrival_time <= t1 + e);
        }
    }
    if n3 < s.procs.len() {
        assert(procs[n3].arrival_time == s.procs[n3].arrival_time);
    }
    assert(q3 =~= waiting + arrived) by {
        assert(q3.len() == waiting.len() + arrived.len());
        assert forall|i: int| 0 <= i < q3.len() implies q3[i] == (waiting + arrived)[i] by {
            if i < q1.len() - 1 {
                assert(q3[i] == q1.drop_first()[i]);
                if idle {
                    assert(q1[i + 1] == s.next + (i + 1));
                }
            } else {
                assert(q3[i] == n1 + (i - (q1.len() - 1)));
            }
        }
    }
}

/// What the chart of a reachable state satisfies: its segments follow one
/// another, none longer than the quantum, none before its process arrives;
/// with distinct pids, each process has run for its burst less its
/// remaining time, and every admitted process with time left is queued.
pub open spec fn rr_chart_inv(order: Seq<Process>, quantum: u32, s: RrState) -> bool {
    &&& chart_ordered(s.chart)
    &&& forall|k: int|
        #![trigger s.chart[k]]
        0 <= k < s.chart.len() ==> s.chart[k].end - s.chart[k].start <= quantum && exists|i: int|
            0 <= i < order.len() && order[i].pid == s.chart[k].pid && order[i].arrival_time
                <= s.chart[k].start
    &&& s.chart.len() > 0 ==> s.chart.last().end <= s.time
    &&& forall|i: int| 0 <= i < s.next ==> (#[trigger] s.procs[i]).arrival_time <= s.time
    &&& distinct_pids(order) ==> {
        &&& forall|i: int|
            0 <= i < order.len() ==> run_time(s.chart, (#[trigger] order[i]).pid) == order[i].burst_time
                - s.procs[i].remaining_time
        &&& forall|i: int|
            0 <= i < s.next && (#[trigger] s.procs[i]).remaining_time > 0 ==> s.queue.contains(
                i as usize,
            )
        &&& forall|i: int|
            s.next <= i < order.len() ==> (#[trigger] s.procs[i]).remaining_time == order[i].burst_time
    }
}

proof fn lemma_run_time_push(segs: Seq<GanttSegment>, seg: GanttSegment, pid: u32)
    ensures
        run_time(segs.push(seg), pid) == run_time(segs, pid) + if seg.pid == pid {
            seg.end - seg.start
        } else {
            0
        },
{
    assert(segs.push(seg).drop_last() =~= segs);
}

#[verifier::spinoff_prover]
#[verifier::rlimit(60)]
proof fn lemma_step_chart(quantum: u32, order: Seq<Process>, s: RrState)
    requires
        rr_inv(order, s),
        rr_chart_inv(order, quantum, s),
        order.len() <= usize::MAX,
        rr_step(quantum, s).time <= u32::MAX,
    ensures
        rr_chart_inv(order, quantum, rr_step(quantum, s)),
{
    if !rr_done(s) {
        let t1 = if s.queue.len() == 0 {
            s.procs[s.next].arrival_time as int
        } else {
            s.time
        };
        lemma_admit(s.procs, s.queue, s.next, t1);
        let (q1, n1) = if s.queue.len() == 0 {
            rr_admit(s.procs, s.queue, s.next, t1)
        } else {
            (s.queue, s.next)
        };
        assert(q1.len() > 0 && 0 <= q1[0] < n1 && s.time <= t1 && n1 <= s.procs.len()) by {
            if s.queue.len() != 0 {
                assert(s.queue[0] < s.next);
            }
        }
        assert forall|i: int| 0 <= i < n1 implies (#[trigger] s.procs[i]).arrival_time <= t1 by {
            if i < s.next {
                assert(s.procs[i].arrival_time <= s.time);
            }
        }
        let idx = q1[0] as int;
        let p = s.procs[idx];
        let e: int = if quantum < p.remaining_time {
            quantum as int
        } else {
            p.remaining_time as int
        };
        let procs = s.procs.update(idx, with_remaining(p, p.remaining_time - e));
        lemma_admit(procs, q1.drop_first(), n1, t1 + e);
        let (q3, n3) = rr_admit(procs, q1.drop_first(), n1, t1 + e);
        let s2 = rr_step(quantum, s);
        let seg = segment(p.pid, t1, t1 + e);
        assert(s2.chart == s.chart.push(seg));
        assert(s2.time == t1 + e);
        assert(seg.start == t1 && seg.end == t1 + e);
        assert(p.arrival_time == order[idx].arrival_time && p.pid == order[idx].pid);
        // The chart.
        assert forall|k: int|
            #![trigger s2.chart[k]]
            0 <= k < s2.chart.len() implies s2.chart[k].end - s2.chart[k].start <= quantum
                && exists|i: int|
                0 <= i < order.len() && order[i].pid == s2.chart[k].pid && order[i].arrival_time
                    <= s2.chart[k].start by {
            if k < s.chart.len() {
                assert(s2.chart[k] == s.chart[k]);
            } else {
                assert(s2.chart[k] == seg);
                assert(order[idx].pid == seg.pid);
            }
        }
        assert(chart_ordered(s2.chart)) by {
            assert forall|i: int| 0 <= i < s2.chart.len() implies (#[trigger] s2.chart[i]).start
                <= s2.chart[i].end by {
                if i < s.chart.len() {
                    assert(s2.chart[i] == s.chart[i]);
                }
            }
            assert forall|i: int, j: int| 0 <= i < j < s2.chart.len() implies (
            #[trigger] s2.chart[i]).end <= (#[trigger] s2.chart[j]).start by {
                assert(s2.chart[i] == s.chart[i]);
                if j < s.chart.len() {
                    assert(s2.chart[j] == s.chart[j]);
                } else {
                    assert(s.chart[i].end <= s.chart.last().end);
                }
            }
        }
        assert forall|i: int| 0 <= i < s2.next implies (#[trigger] s2.procs[i]).arrival_time
            <= s2.time by {
            assert(s2.procs[i].arrival_time == s.procs[i].arrival_time);
            if i < n1 {
                assert(s.procs[i].arrival_time <= t1);
            } else {
                assert(procs[i].arrival_time <= t1 + e);
            }
        }
        if distinct_pids(order) {
            assert forall|i: int| 0 <= i < order.len() implies run_time(
                s2.chart,
                (#[trigger] order[i]).pid,
            ) == order[i].burst_time - s2.procs[i].remaining_time by {
                lemma_run_time_push(s.chart, seg, order[i].pid);
                assert(run_time(s.chart, order[i].pid) == order[i].burst_time
                    - s.procs[i].remaining_time);
                if i != idx {
                    if i < idx {
                        assert(order[i].pid != order[idx].pid);
                    } else {
                        assert(order[idx].pid != order[i].pid);
                    }
                }
            }
            assert forall|i: int|
                0 <= i < s2.next && (#[trigger] s2.procs[i]).remaining_time > 0 implies s2.queue.contains(
                i as usize,
            ) by {
                if i == idx {
                    assert(s2.queue.last() == i as usize);
                } else if i < n1 {
                    // It was queued before the pop, and not at the front.
                    let pos = if s.queue.len() == 0 {
                        i - s.next
                    } else {
                        choose|pos: int| 0 <= pos < s.queue.len() && s.queue[pos] == i as usize
                    };
                    if s.queue.len() == 0 {
                        assert(s.next <= i);
                        assert(q1[pos] == i as usize);
                    } else {
                        assert(s.procs[i].remaining_time == s2.procs[i].remaining_time);
                        assert(s.queue.contains(i as usize));
                        assert(q1[pos] == i as usize);
                    }
                    assert(pos != 0);
                    assert(q1.drop_first()[pos - 1] == i as usize);
                    assert(q3[pos - 1] == i as usize);
                    assert(s2.queue[pos - 1] == i as usize);
                } else {
                    let pos = q1.drop_first().len() + (i - n1);
                    assert(q3[pos] == i as usize);
                    assert(s2.queue[pos] == i as usize);
                }
            }
            assert forall|i: int| s2.next <= i < order.len() implies (
            #[trigger] s2.procs[i]).remaining_time == order[i].burst_time by {
                assert(i != idx);
                assert(s.next <= i);
                assert(s2.procs[i] == s.procs[i]);
            }
        }
    }
}

proof fn lemma_chart_along_run(quantum: u32, order: Seq<Process>, init: RrState, j: nat, k: nat)
    requires
        rr_inv(order, init),
        rr_chart_inv(order, quantum, init),
        order.len() <= usize::MAX,
        rr_steps(quantum, init, k).time <= u32::MAX,
        j <= k,
    ensures
        rr_chart_inv(order, quantum, rr_steps(quantum, init, j)),
    decreases j,
{
    if j > 0 {
        let i = (j - 1) as nat;
        lemma_chart_along_run(quantum, order, init, i, k);
        lemma_steps_succ(quantum, init, i);
        lemma_steps_inv(quantum, order, init, i, i);
        lemma_steps_inv(quantum, order, init, j, k);
        lemma_step_chart(quantum, order, rr_steps(quantum, init, i));
    }
}

/// Round Robin runs its segments in time order, none longer than the
/// quantum and none before its process arrives; with distinct pids every
/// process runs, over all its segments, exactly its burst time.
pub proof fn lemma_rr_chart(quantum: u32, processes: Seq<Process>)
    requires
        (RoundRobinScheduler { quantum }).accepts(processes),
        processes.len() <= usize::MAX,
    ensures
        ({
            let r = (RoundRobinScheduler { quantum }).chart_of(processes);
            &&& chart_ordered(r)
            &&& forall|k: int|
                #![trigger r[k]]
                0 <= k < r.len() ==> r[k].end - r[k].start <= quantum && exists|i: int|
                    0 <= i < processes.len() && processes[i].pid == r[k].pid
                        && processes[i].arrival_time <= r[k].start
            &&& distinct_pids(processes) ==> forall|i: int|
                0 <= i < processes.len() ==> run_time(r, (#[trigger] processes[i]).pid)
                    == processes[i].burst_time
        }),
{
    let order = arrival_order(processes);
    let init = rr_init(processes);
    lemma_arrival_order(processes);
    lemma_admit(init.procs, Seq::empty(), 0, 0);
    assert(rr_inv(order, init));
    if distinct_pids(processes) {
        lemma_arrival_order_distinct(processes);
    }
    assert forall|i: int| 0 <= i < init.next && (#[trigger] init.procs[i]).remaining_time
        > 0 implies init.queue.contains(i as usize) by {
        assert(init.queue[i] == i as usize);
    }
    assert forall|i: int| 0 <= i < order.len() implies (#[trigger] init.procs[i]).remaining_time
        == order[i].burst_time && run_time(init.chart, order[i].pid) == 0 by {
        assert(init.procs[i] == with_remaining(order[i], order[i].burst_time as int));
    }
    assert forall|i: int| 0 <= i < init.next implies (#[trigger] init.procs[i]).arrival_time
        <= init.time by {
        assert(init.procs[i].arrival_time <= 0);
    }
    assert(rr_chart_inv(order, quantum, init));
    let kk = choose|k: nat|
        rr_done(#[trigger] rr_steps(quantum, init, k)) && rr_steps(quantum, init, k).time
            <= u32::MAX;
    let t = rr_turns(quantum, processes);
    if t <= kk {
        lemma_steps_done(quantum, init, t, kk);
    } else {
        lemma_steps_done(quantum, init, kk, t);
    }
    lemma_chart_along_run(quantum, order, init, kk, kk);
    lemma_steps_inv(quantum, order, init, kk, kk);
    let fin = rr_steps(quantum, init, kk);
    let r = fin.chart;
    assert forall|k: int|
        #![trigger r[k]]
        0 <= k < r.len() implies r[k].end - r[k].start <= quantum && exists|i: int|
            0 <= i < processes.len() && processes[i].pid == r[k].pid && processes[i].arrival_time
                <= r[k].start by {
        let j = choose|j: int|
            0 <= j < order.len() && order[j].pid == r[k].pid && order[j].arrival_time <= r[k].start;
        lemma_arrival_order_member(processes, j);
    }
    if distinct_pids(processes) {
        assert forall|i: int| 0 <= i < processes.len() implies run_time(
            r,
            (#[trigger] processes[i]).pid,
        ) == processes[i].burst_time by {
            lemma_arrival_order_covers(processes, i);
            let j = choose|j: int| 0 <= j < processes.len() && order[j] == processes[i];
            if fin.procs[j].remaining_time > 0 {
                assert(fin.queue.contains(j as usize));
            }
            assert(run_time(r, order[j].pid) == order[j].burst_time - fin.procs[j].remaining_time);
        }
    }
}

/// The progress of the simulation: twice the remaining work, plus the queue
/// length, plus the processes not yet admitted.
pub open spec fn rr_measure(s: RrState) -> int {
    2 * sum_remaining(s.procs) + s.queue.len() + (s.procs.len() - s.next)
}

/// The clock stays within the last arrival plus the work done.
pub open spec fn rr_progress(order: Seq<Process>, a: int, s: RrState) -> bool {
    let work = sum_bursts(order) - sum_remaining(s.procs);
    &&& 0 <= work
    &&& s.time <= a + work
}

proof fn lemma_rr_step_progress(quantum: u32, order: Seq<Process>, a: int, s: RrState)
    requires
        rr_inv(order, s),
        rr_progress(order, a, s),
        quantum > 0,
        arrivals_within(order, a),
        order.len() <= usize::MAX,
        !rr_done(s),
    ensures
        rr_progress(order, a, rr_step(quantum, s)),
        rr_measure(rr_step(quantum, s)) < rr_measure(s),
{
    let t1 = if s.queue.len() == 0 {
        s.procs[s.next].arrival_time as int
    } else {
        s.time
    };
    lemma_admit(s.procs, s.queue, s.next, t1);
    let (q1, n1) = if s.queue.len() == 0 {
        rr_admit(s.procs, s.queue, s.next, t1)
    } else {
        (s.queue, s.next)
    };
    assert(q1.len() > 0 && 0 <= q1[0] < n1 && n1 <= s.procs.len()) by {
        if s.queue.len() != 0 {
            assert(s.queue[0] < s.next);
        }
    }
    if s.queue.len() == 0 {
        assert(s.procs[s.next].arrival_time == order[s.next].arrival_time);
    }
    let idx = q1[0] as int;
    let p = s.procs[idx];
    let e: int = if quantum < p.remaining_time {
        quantum as int
    } else {
        p.remaining_time as int
    };
    let procs = s.procs.update(idx, with_remaining(p, p.remaining_time - e));
    lemma_sum_remaining_update(s.procs, idx, with_remaining(p, p.remaining_time - e));
    lemma_sum_remaining_nonneg(procs);
    lemma_admit(procs, q1.drop_first(), n1, t1 + e);
}

proof fn lemma_rr_terminates(quantum: u32, order: Seq<Process>, a: int, s: RrState, m: nat)
    requires
        rr_inv(order, s),
        rr_progress(order, a, s),
        quantum > 0,
        arrivals_within(order, a),
        order.len() <= usize::MAX,
        a + sum_bursts(order) <= u32::MAX,
        m >= rr_measure(s),
    ensures
        rr_done(rr_steps(quantum, s, m)),
        rr_steps(quantum, s, m).time <= u32::MAX,
    decreases m,
{
    lemma_sum_remaining_nonneg(s.procs);
    if rr_done(s) {
        lemma_steps_done(quantum, s, 0, m);
    } else {
        lemma_rr_step_progress(quantum, order, a, s);
        lemma_step(quantum, order, s);
        lemma_rr_terminates(quantum, order, a, rr_step(quantum, s), (m - 1) as nat);
    }
}

/// With a positive quantum, Round Robin completes whenever the last arrival
/// plus the total burst time fits in `u32`.
pub proof fn lemma_rr_accepts(quantum: u32, processes: Seq<Process>, a: int)
    requires
        quantum > 0,
        arrivals_within(processes, a),
        0 <= a,
        a + sum_bursts(processes) <= u32::MAX,
        processes.len() <= usize::MAX,
    ensures
        (RoundRobinScheduler { quantum }).accepts(processes),
{
    let order = arrival_order(processes);
    let init = rr_init(processes);
    lemma_arrival_order(processes);
    lemma_arrival_order_totals(processes, a);
    lemma_reset_all_sum(order);
    lemma_admit(init.procs, Seq::empty(), 0, 0);
    assert(rr_inv(order, init));
    assert(rr_progress(order, a, init));
    lemma_sum_remaining_nonneg(init.procs);
    let m = rr_measure(init) as nat;
    lemma_rr_terminates(quantum, order, a, init, m);
    let sched = RoundRobinScheduler { quantum };
    let f = rr_steps(sched.quantum, rr_init(processes), m);
    assert(rr_done(f) && f.time <= u32::MAX);
}

/// Two states that differ at most in the priorities of their processes.
pub open spec fn rr_alike(s1: RrState, s2: RrState) -> bool {
    &&& s1.queue == s2.queue
    &&& s1.next == s2.next
    &&& s1.time == s2.time
    &&& s1.chart == s2.chart
    &&& s1.procs.len() == s2.procs.len()
    &&& forall|i: int|
        0 <= i < s1.procs.len() ==> (#[trigger] s1.procs[i]).pid == s2.procs[i].pid
            && s1.procs[i].arrival_time == s2.procs[i].arrival_time && s1.procs[i].remaining_time
            == s2.procs[i].remaining_time
}

proof fn lemma_admit_alike(p1: Seq<Process>, p2: Seq<Process>, queue: Seq<usize>, next: int, t: int)
    requires
        p1.len() == p2.len(),
        forall|i: int| 0 <= i < p1.len() ==> (#[trigger] p1[i]).arrival_time == p2[i].arrival_time,
    ensures
        rr_admit(p1, queue, next, t) == rr_admit(p2, queue, next, t),
    decreases p1.len() - next,
{
    if 0 <= next < p1.len() && p1[next].arrival_time <= t {
        lemma_admit_alike(p1, p2, queue.push(next as usize), next + 1, t);
    }
}

proof fn lemma_step_alike(quantum: u32, order: Seq<Process>, s1: RrState, s2: RrState)
    requires
        rr_inv(order, s1),
        order.len() <= usize::MAX,
        rr_alike(s1, s2),
    ensures
        rr_alike(rr_step(quantum, s1), rr_step(quantum, s2)),
{
    if !rr_done(s1) {
        let t1 = if s1.queue.len() == 0 {
            s1.procs[s1.next].arrival_time as int
        } else {
            s1.time
        };
        lemma_admit(s1.procs, s1.queue, s1.next, t1);
        lemma_admit_alike(s1.procs, s2.procs, s1.queue, s1.next, t1);
        let (q1, n1) = if s1.queue.len() == 0 {
            rr_admit(s1.procs, s1.queue, s1.next, t1)
        } else {
            (s1.queue, s1.next)
        };
        if s1.queue.len() != 0 {
            assert(s1.queue[0] < s1.next);
        }
        let idx = q1[0] as int;
        let pa = s1.procs[idx];
        let pb = s2.procs[idx];
        let e: int = if quantum < pa.remaining_time {
            quantum as int
        } else {
            pa.remaining_time as int
        };
        let procs1 = s1.procs.update(idx, with_remaining(pa, pa.remaining_time - e));
        let procs2 = s2.procs.update(idx, with_remaining(pb, pb.remaining_time - e));
        lemma_admit_alike(procs1, procs2, q1.drop_first(), n1, t1 + e);
        let r1 = rr_step(quantum, s1);
        let r2 = rr_step(quantum, s2);
        assert forall|i: int| 0 <= i < r1.procs.len() implies (#[trigger] r1.procs[i]).pid
            == r2.procs[i].pid && r1.procs[i].arrival_time == r2.procs[i].arrival_time
            && r1.procs[i].remaining_time == r2.procs[i].remaining_time by {
            assert(s1.procs[i].pid == s2.procs[i].pid);
        }
    }
}

proof fn lemma_steps_alike(quantum: u32, order: Seq<Process>, s1: RrState, s2: RrState, k: nat)
    requires
        rr_inv(order, s1),
        order.len() <= usize::MAX,
        rr_alike(s1, s2),
    ensures
        rr_alike(rr_steps(quantum, s1, k), rr_steps(quantum, s2, k)),
    decreases k,
{
    if k > 0 {
        lemma_step_alike(quantum, order, s1, s2);
        lemma_step(quantum, order, s1);
        lemma_steps_alike(
            quantum,
            order,
            rr_step(quantum, s1),
            rr_step(quantum, s2),
            (k - 1) as nat,
        );
    }
}

/// With distinct pids, the Round Robin chart does not depend on the order
/// of the processes, nor on their priorities or remaining times: processes
/// that are the same jobs up to order are accepted alike and scheduled alike.
pub proof fn lemma_rr_order_free(quantum: u32, processes: Seq<Process>, other: Seq<Process>)
    requires
        distinct_pids(processes),
        jobs(other).to_multiset() == jobs(processes).to_multiset(),
        processes.len() <= usize::MAX,
    ensures
        (RoundRobinScheduler { quantum }).accepts(other) == (RoundRobinScheduler {
            quantum,
        }).accepts(processes),
        (RoundRobinScheduler { quantum }).accepts(processes) ==> (RoundRobinScheduler {
            quantum,
        }).chart_of(other) == (RoundRobinScheduler { quantum }).chart_of(processes),
{
    let sched = RoundRobinScheduler { quantum };
    let o1 = arrival_order(processes);
    let o2 = arrival_order(other);
    let i1 = rr_init(processes);
    let i2 = rr_init(other);
    lemma_arrival_order_free(processes, other);
    lemma_arrival_order(processes);
    lemma_arrival_order(other);
    assert(jobs(o1).len() == o1.len() && jobs(o2).len() == o2.len());
    assert forall|i: int| 0 <= i < o1.len() implies (#[trigger] o1[i]).pid == o2[i].pid
        && o1[i].arrival_time == o2[i].arrival_time && o1[i].burst_time == o2[i].burst_time by {
        assert(jobs(o1)[i] == jobs(o2)[i]);
    }
    lemma_admit_alike(reset_all(o1), reset_all(o2), Seq::empty(), 0, 0);
    assert(rr_alike(i1, i2));
    lemma_admit(i1.procs, Seq::empty(), 0, 0);
    assert(rr_inv(o1, i1));
    assert forall|k: nat| #[trigger] rr_done(rr_steps(quantum, i1, k)) == rr_done(
        rr_steps(quantum, i2, k),
    ) && rr_steps(quantum, i1, k).time == rr_steps(quantum, i2, k).time by {
        lemma_steps_alike(quantum, o1, i1, i2, k);
    }
    if sched.accepts(processes) {
        let k = choose|k: nat|
            rr_done(#[trigger] rr_steps(quantum, i1, k)) && rr_steps(quantum, i1, k).time
                <= u32::MAX;
        assert(rr_done(rr_steps(sched.quantum, rr_init(other), k)));
        assert(rr_steps(sched.quantum, rr_init(other), k).time <= u32::MAX);
        let t1 = rr_turns(quantum, processes);
        let t2 = rr_turns(quantum, other);
        lemma_steps_alike(quantum, o1, i1, i2, k);
        if t1 <= k {
            lemma_steps_done(quantum, i1, t1, k);
        } else {
            lemma_steps_done(quantum, i1, k, t1);
        }
        if t2 <= k {
            lemma_steps_done(quantum, i2, t2, k);
        } else {
            lemma_steps_done(quantum, i2, k, t2);
        }
    }
    if sched.accepts(other) {
        let k = choose|k: nat|
            rr_done(#[trigger] rr_steps(quantum, i2, k)) && rr_steps(quantum, i2, k).time
                <= u32::MAX;
        assert(rr_done(rr_steps(sched.quantum, rr_init(processes), k)));
        assert(rr_steps(sched.quantum, rr_init(processes), k).time <= u32::MAX);
    }
}

/// While every burst fits in one quantum, a reachable state has run the
/// first processes of arrival order one after another, as FCFS does; the
/// queue holds the next ones in order, none of them started.
pub open spec fn rr_fcfs_inv(order: Seq<Process>, s: RrState) -> bool {
    let j = s.chart.len() as int;
    &&& rr_inv(order, s)
    &&& j <= s.next
    &&& s.queue.len() == s.next - j
    &&& forall|m: int| 0 <= m < s.queue.len() ==> #[trigger] s.queue[m] == j + m
    &&& forall|i: int|
        j <= i < order.len() ==> (#[trigger] s.procs[i]).remaining_time == order[i].burst_time
    &&& forall|i: int| 0 <= i < s.next ==> (#[trigger] s.procs[i]).arrival_time <= s.time
    &&& s.chart + fcfs_from(order.skip(j), s.time) == fcfs_from(order, 0)
    &&& fcfs_finish(order.skip(j), s.time) == fcfs_finish(order, 0)
}

#[verifier::spinoff_prover]
#[verifier::rlimit(60)]
proof fn lemma_step_fcfs(quantum: u32, order: Seq<Process>, s: RrState)
    requires
        rr_fcfs_inv(order, s),
        !rr_done(s),
        order.len() <= usize::MAX,
        forall|i: int| 0 <= i < order.len() ==> (#[trigger] order[i]).burst_time <= quantum,
    ensures
        rr_fcfs_inv(order, rr_step(quantum, s)),
        rr_step(quantum, s).chart.len() == s.chart.len() + 1,
{
    let j = s.chart.len() as int;
    let t1 = if s.queue.len() == 0 {
        s.procs[s.next].arrival_time as int
    } else {
        s.time
    };
    lemma_admit(s.procs, s.queue, s.next, t1);
    let (q1, n1) = if s.queue.len() == 0 {
        rr_admit(s.procs, s.queue, s.next, t1)
    } else {
        (s.queue, s.next)
    };
    assert(j < order.len());
    assert(q1.len() > 0 && q1[0] == j);
    let p = s.procs[j];
    assert(p.pid == order[j].pid && p.arrival_time == order[j].arrival_time);
    assert(p.remaining_time == order[j].burst_time);
    assert(t1 == start_after(s.time, order[j]));
    let e = p.remaining_time as int;
    let procs = s.procs.update(j, with_remaining(p, 0));
    lemma_admit(procs, q1.drop_first(), n1, t1 + e);
    lemma_step(quantum, order, s);
    let s2 = rr_step(quantum, s);
    let seg = segment(p.pid, t1, t1 + e);
    assert(s2.chart == s.chart.push(seg));
    assert(s2.time == t1 + e);
    let rest = order.skip(j);
    assert(rest[0] == order[j]);
    assert(rest.drop_first() =~= order.skip(j + 1));
    assert(fcfs_from(rest, s.time) == seq![seg] + fcfs_from(order.skip(j + 1), t1 + e));
    assert(fcfs_finish(rest, s.time) == fcfs_finish(order.skip(j + 1), t1 + e));
    assert(s2.chart + fcfs_from(order.skip(j + 1), t1 + e) =~= s.chart + fcfs_from(rest, s.time));
    let (q3, n3) = rr_admit(procs, q1.drop_first(), n1, t1 + e);
    assert(s2.queue == q3);
    assert forall|m: int| 0 <= m < s2.queue.len() implies #[trigger] s2.queue[m] == j + 1 + m by {
        if m < q1.len() - 1 {
            assert(q3[m] == q1.drop_first()[m]);
            assert(q1.drop_first()[m] == q1[m + 1]);
            if s.queue.len() != 0 {
                assert(s.queue[m + 1] == j + m + 1);
            }
        }
    }
    assert forall|i: int| j + 1 <= i < order.len() implies (#[trigger] s2.procs[i]).remaining_time
        == order[i].burst_time by {
        assert(s2.procs[i] == s.procs[i]);
    }
    assert forall|i: int| 0 <= i < s2.next implies (#[trigger] s2.procs[i]).arrival_time <= s2.time by {
        assert(s2.procs[i].arrival_time == s.procs[i].arrival_time);
        if i < s.next {
            assert(s.procs[i].arrival_time <= s.time);
        } else if i < n1 {
            assert(s.procs[i].arrival_time <= t1);
        } else {
            assert(procs[i].arrival_time <= t1 + e);
        }
    }
}

proof fn lemma_steps_fcfs(quantum: u32, order: Seq<Process>, s: RrState, k: nat)
    requires
        rr_fcfs_inv(order, s),
        k + s.chart.len() <= order.len(),
        order.len() <= usize::MAX,
        forall|i: int| 0 <= i < order.len() ==> (#[trigger] order[i]).burst_time <= quantum,
    ensures
        rr_fcfs_inv(order, rr_steps(quantum, s, k)),
        rr_steps(quantum, s, k).chart.len() == s.chart.len() + k,
    decreases k,
{
    if k > 0 {
        if rr_done(s) {
            assert(s.chart.len() == order.len());
        }
        lemma_step_fcfs(quantum, order, s);
        lemma_steps_fcfs(quantum, order, rr_step(quantum, s), (k - 1) as nat);
    }
}

/// When every burst fits in one quantum, Round Robin runs each process once,
/// to completion, in arrival order: its chart is the FCFS chart, and it
/// completes whenever FCFS does.
pub proof fn lemma_rr_is_fcfs(quantum: u32, processes: Seq<Process>)
    requires
        forall|i: int| 0 <= i < processes.len() ==> (#[trigger] processes[i]).burst_time <= quantum,
        processes.len() <= usize::MAX,
        FcfsScheduler.accepts(processes),
    ensures
        (RoundRobinScheduler { quantum }).accepts(processes),
        (RoundRobinScheduler { quantum }).chart_of(processes) == FcfsScheduler.chart_of(processes),
{
    let order = arrival_order(processes);
    let init = rr_init(processes);
    let n = order.len();
    lemma_arrival_order(processes);
    assert forall|i: int| 0 <= i < n implies (#[trigger] order[i]).burst_time <= quantum by {
        lemma_arrival_order_member(processes, i);
    }
    lemma_admit(init.procs, Seq::empty(), 0, 0);
    assert(rr_inv(order, init));
    assert(order.skip(0) =~= order);
    assert(init.chart + fcfs_from(order, 0) =~= fcfs_from(order, 0));
    assert forall|i: int| 0 <= i < n implies (#[trigger] init.procs[i]).remaining_time
        == order[i].burst_time by {}
    assert forall|m: int| 0 <= m < init.queue.len() implies #[trigger] init.queue[m] == 0 + m by {}
    assert(rr_fcfs_inv(order, init));
    lemma_steps_fcfs(quantum, order, init, n as nat);
    let f = rr_steps(quantum, init, n as nat);
    assert(order.skip(n as int) =~= Seq::<Process>::empty());
    assert(f.chart + Seq::<GanttSegment>::empty() =~= f.chart);
    assert(rr_done(f));
    let sched = RoundRobinScheduler { quantum };
    assert(rr_done(rr_steps(sched.quantum, rr_init(processes), n as nat)));
    assert(rr_steps(sched.quantum, rr_init(processes), n as nat).time <= u32::MAX);
    let t = rr_turns(quantum, processes);
    if t <= n {
        lemma_steps_done(quantum, init, t, n as nat);
    } else {
        lemma_steps_done(quantum, init, n as nat, t);
    }
}

fn enqueue_arrivals(
    procs: &Vec<Process>,
    queue: &mut VecDeque<usize>,
    next: &mut usize,
    t: u32,
)
    requires
        *old(next) <= procs@.len(),
    ensures
        (final(queue)@, *final(next) as int) == rr_admit(procs@, old(queue)@, *old(next) as int, t as int),
{
    let n = procs.len();
    while *next < n && procs[*next].arrival_time <= t
        invariant
            n == procs@.len(),
            *next <= n,
            rr_admit(procs@, queue@, *next as int, t as int) == rr_admit(
                procs@,
                old(queue)@,
                *old(next) as int,
                t as int,
            ),
        decreases n - *next,
    {
        queue.push_back(*next);
        *next += 1;
    }
}

impl CpuScheduler for RoundRobinScheduler {
    /// The simulation comes to an end, and its time stays within `u32`.
    open spec fn accepts(&self, processes: Seq<Process>) -> bool {
        exists|k: nat|
            rr_done(#[trigger] rr_steps(self.quantum, rr_init(processes), k)) && rr_steps(
                self.quantum,
                rr_init(processes),
                k,
            ).time <= u32::MAX
    }

    /// The chart at the end of the simulation.
    open spec fn chart_of(&self, processes: Seq<Process>) -> Seq<GanttSegment> {
        rr_steps(self.quantum, rr_init(processes), rr_turns(self.quantum, processes)).chart
    }

    fn schedule(&self, processes: &[Process]) -> (chart: GanttChart) {
        broadcast use vstd::std_specs::vecdeque::group_vec_dequeue_axioms;

        if processes.len() == 0 {
            proof {
                let s0 = rr_init(processes@);
                assert(arrival_order(processes@) == processes@);
                assert(rr_done(s0));
                let k = rr_turns(self.quantum, processes@);
                lemma_steps_done(self.quantum, s0, 0, k);
            }
            return GanttChart::new();
        }
        let ghost order = arrival_order(processes@);
        let mut procs = sort_by_arrival(processes);
        let n = procs.len();
        let mut r: usize = 0;
        while r < n
            invariant
                n == order.len(),
                procs@.len() == n,
                r <= n,
                forall|i: int| 0 <= i < r ==> procs@[i] == reset_all(order)[i],
                forall|i: int| r <= i < n ==> procs@[i] == order[i],
            decreases n - r,
        {
            let mut p = procs[r];
            p.reset_remaining();
            procs.set(r, p);
            r += 1;
        }
        proof {
            assert(procs@ =~= reset_all(order));
        }
        let mut chart = GanttChart::new();
        let mut ready_queue: VecDeque<usize> = VecDeque::new();
        let mut current_time: u32 = 0;
        let mut next_to_enqueue: usize = 0;

        // Enqueue initial arrivals
        enqueue_arrivals(&procs, &mut ready_queue, &mut next_to_enqueue, current_time);

        let ghost init = rr_init(processes@);
        let ghost kk: nat = choose|k: nat|
            rr_done(#[trigger] rr_steps(self.quantum, init, k)) && rr_steps(
                self.quantum,
                init,
                k,
            ).time <= u32::MAX;
        let ghost mut j: nat = 0;
        proof {
            lemma_admit(procs@, Seq::empty(), 0, 0);
            assert(rr_inv(order, init));
            lemma_steps_inv(self.quantum, order, init, kk, kk);
        }
        while ready_queue.len() > 0 || next_to_enqueue < n
            invariant
                n == order.len(),
                n > 0,
                procs@.len() == n,
                rr_inv(order, init),
                rr_done(rr_steps(self.quantum, init, kk)),
                rr_steps(self.quantum, init, kk).time <= u32::MAX,
                rr_steps(self.quantum, init, j) == (RrState {
                    procs: procs@,
                    queue: ready_queue@,
                    next: next_to_enqueue as int,
                    time: current_time as int,
                    chart: chart.segments@,
                }),
                j <= kk,
            decreases kk - j,
        {
            let ghost s = rr_steps(self.quantum, init, j);
            proof {
                lemma_steps_inv(self.quantum, order, init, j, j);
                if j == kk {
                    assert(false);
                }
                lemma_steps_inv(self.quantum, order, init, j + 1, kk);
                lemma_steps_succ(self.quantum, init, j);
                lemma_step(self.quantum, order, s);
                if s.queue.len() == 0 {
                    lemma_admit(s.procs, s.queue, s.next, s.procs[s.next].arrival_time as int);
                }
            }
            if ready_queue.len() == 0 {
                // Jump to the next arrival.
                current_time = procs[next_to_enqueue].arrival_time;
                enqueue_arrivals(&procs, &mut ready_queue, &mut next_to_enqueue, current_time);
            }
            let idx = ready_queue.pop_front().unwrap();
            proof {
                assert(idx < next_to_enqueue);
            }
            let rem = procs[idx].remaining_time;
            let exec_time = if self.quantum < rem {
                self.quantum
            } else {
                rem
            };
            chart.add(procs[idx].pid, current_time, current_time + exec_time);
            current_time += exec_time;
            let mut p = procs[idx];
            p.remaining_time = rem - exec_time;
            procs.set(idx, p);

            // Enqueue new arrivals
            enqueue_arrivals(&procs, &mut ready_queue, &mut next_to_enqueue, current_time);

            // If not finished, put back in queue
            if procs[idx].remaining_time > 0 {
                ready_queue.push_back(idx);
            }
            proof {
                j = j + 1;
            }
        }
        proof {
            let k = rr_turns(self.quantum, processes@);
            if j <= k {
                lemma_steps_done(self.quantum, init, j, k);
            } else {
                lemma_steps_done(self.quantum, init, k, j);
            }
        }
        chart
    }
}

} // verus!
