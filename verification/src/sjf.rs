//! Shortest Job First (non-preemptive) CPU scheduling.
use vstd::prelude::*;
use crate::gantt::{GanttChart, GanttSegment, segment};
use crate::gantt::{chart_ordered, completion_map, first_run_map, lemma_single_segment_metrics};
use crate::permutation::{lemma_matched_from_multiset, lemma_matched_pid, lemma_matched_remove, matched};
use crate::{
    CpuScheduler, Process, arrivals_within, distinct_pids, job, jobs, lemma_jobs_distinct,
    sum_bursts,
};

verus! {

/// SJF scheduler: non-preemptive, picks the shortest burst at each decision point.
#[derive(Debug, Default)]
pub struct SjfScheduler;

/// `a` comes strictly before `b` by (burst time, arrival time, pid).
pub open spec fn shorter(a: Process, b: Process) -> bool {
    a.burst_time < b.burst_time || (a.burst_time == b.burst_time && (a.arrival_time
        < b.arrival_time || (a.arrival_time == b.arrival_time && a.pid < b.pid)))
}

/// The index of the first process of `s` that has arrived by `t` and is
/// least by (burst time, arrival time, pid); -1 if none has arrived.
pub open spec fn pick_shortest(s: Seq<Process>, t: int) -> int
    decreases s.len(),
{
    if s.len() == 0 {
        -1
    } else {
        let k = pick_shortest(s.drop_last(), t);
        let p = s.last();
        if p.arrival_time <= t && (k < 0 || shorter(p, s[k])) {
            s.len() - 1
        } else {
            k
        }
    }
}

/// The earliest arrival time in `s` (0 when `s` is empty).
pub open spec fn earliest_arrival(s: Seq<Process>) -> int
    decreases s.len(),
{
    if s.len() == 0 {
        0
    } else {
        let e = earliest_arrival(s.drop_last());
        if s.len() == 1 || s.last().arrival_time < e {
            s.last().arrival_time as int
        } else {
            e
        }
    }
}

/// `s` without every process whose pid is `pid`.
pub open spec fn without_pid(s: Seq<Process>, pid: u32) -> Seq<Process>
    decreases s.len(),
{
    if s.len() == 0 {
        s
    } else if s.last().pid == pid {
        without_pid(s.drop_last(), pid)
    } else {
        without_pid(s.drop_last(), pid).push(s.last())
    }
}

pub proof fn lemma_without_pid_len(s: Seq<Process>, pid: u32)
    ensures
        without_pid(s, pid).len() <= s.len(),
        (exists|i: int| 0 <= i < s.len() && s[i].pid == pid) ==> without_pid(s, pid).len()
            < s.len(),
    decreases s.len(),
{
    if s.len() > 0 {
        lemma_without_pid_len(s.drop_last(), pid);
        if exists|i: int| 0 <= i < s.len() && s[i].pid == pid {
            let i = choose|i: int| 0 <= i < s.len() && s[i].pid == pid;
            if i < s.len() - 1 {
                assert(s.drop_last()[i].pid == pid);
            }
        }
    }
}

/// The time at which the CPU makes its next decision: `t` if a process has
/// arrived by then, else the earliest arrival.
pub open spec fn decision_time(s: Seq<Process>, t: int) -> int {
    if pick_shortest(s, t) >= 0 {
        t
    } else {
        earliest_arrival(s)
    }
}

/// The segments of SJF scheduling of `s`, the CPU being free from `t`.
pub open spec fn sjf_from(s: Seq<Process>, t: int) -> Seq<GanttSegment>
    decreases s.len(),
{
    if s.len() == 0 {
        Seq::empty()
    } else {
        let t1 = decision_time(s, t);
        let k = pick_shortest(s, t1);
        if 0 <= k < s.len() {
            let p = s[k];
            proof {
                lemma_without_pid_len(s, p.pid);
            }
            seq![segment(p.pid, t1, t1 + p.burst_time)] + sjf_from(
                without_pid(s, p.pid),
                t1 + p.burst_time,
            )
        } else {
            Seq::empty()
        }
    }
}

/// The time at which SJF scheduling of `s` completes, the CPU being free from `t`.
pub open spec fn sjf_finish(s: Seq<Process>, t: int) -> int
    decreases s.len(),
{
    if s.len() == 0 {
        t
    } else {
        let t1 = decision_time(s, t);
        let k = pick_shortest(s, t1);
        if 0 <= k < s.len() {
            let p = s[k];
            proof {
                lemma_without_pid_len(s, p.pid);
            }
            sjf_finish(without_pid(s, p.pid), t1 + p.burst_time)
        } else {
            t
        }
    }
}

pub proof fn lemma_pick_shortest(s: Seq<Process>, t: int)
    ensures
        -1 <= pick_shortest(s, t) < s.len(),
        pick_shortest(s, t) >= 0 ==> s[pick_shortest(s, t)].arrival_time <= t,
        pick_shortest(s, t) < 0 ==> forall|i: int| 0 <= i < s.len() ==> s[i].arrival_time > t,
    decreases s.len(),
{
    if s.len() > 0 {
        lemma_pick_shortest(s.drop_last(), t);
        assert forall|i: int| 0 <= i < s.len() - 1 implies s[i] == s.drop_last()[i] by {}
    }
}

pub proof fn lemma_earliest_arrival(s: Seq<Process>)
    requires
        s.len() > 0,
    ensures
        exists|i: int| 0 <= i < s.len() && s[i].arrival_time == earliest_arrival(s),
        forall|i: int| 0 <= i < s.len() ==> earliest_arrival(s) <= s[i].arrival_time,
    decreases s.len(),
{
    if s.len() > 1 {
        lemma_earliest_arrival(s.drop_last());
        let i = choose|i: int|
            0 <= i < s.drop_last().len() && s.drop_last()[i].arrival_time == earliest_arrival(
                s.drop_last(),
            );
        assert(s[i] == s.drop_last()[i]);
        assert forall|j: int| 0 <= j < s.len() implies earliest_arrival(s) <= s[j].arrival_time by {
            if j < s.len() - 1 {
                assert(s[j] == s.drop_last()[j]);
            }
        }
    } else {
        assert(s[0] == s.last());
    }
}

/// At the decision time, some process has arrived.
pub proof fn lemma_decision_time(s: Seq<Process>, t: int)
    requires
        s.len() > 0,
    ensures
        0 <= pick_shortest(s, decision_time(s, t)) < s.len(),
        t <= decision_time(s, t),
{
    lemma_pick_shortest(s, t);
    if pick_shortest(s, t) < 0 {
        lemma_earliest_arrival(s);
        let i = choose|i: int| 0 <= i < s.len() && s[i].arrival_time == earliest_arrival(s);
        lemma_pick_shortest(s, earliest_arrival(s));
    }
}

proof fn lemma_sjf_finish_grows(s: Seq<Process>, t: int)
    ensures
        t <= sjf_finish(s, t),
    decreases s.len(),
{
    if s.len() > 0 {
        lemma_decision_time(s, t);
        let t1 = decision_time(s, t);
        let k = pick_shortest(s, t1);
        lemma_without_pid_len(s, s[k].pid);
        lemma_sjf_finish_grows(without_pid(s, s[k].pid), t1 + s[k].burst_time);
    }
}

/// The chosen process has arrived, no arrived process is strictly shorter,
/// and every arrived process before it is strictly longer.
pub proof fn lemma_pick_shortest_least(s: Seq<Process>, t: int)
    ensures
        ({
            let k = pick_shortest(s, t);
            k >= 0 ==> {
                &&& s[k].arrival_time <= t
                &&& forall|i: int|
                    0 <= i < s.len() && (#[trigger] s[i]).arrival_time <= t ==> !shorter(s[i], s[k])
                &&& forall|i: int|
                    0 <= i < k && (#[trigger] s[i]).arrival_time <= t ==> shorter(s[k], s[i])
            }
        }),
    decreases s.len(),
{
    lemma_pick_shortest(s, t);
    if s.len() > 0 {
        let init = s.drop_last();
        lemma_pick_shortest_least(init, t);
        lemma_pick_shortest(init, t);
        assert forall|i: int| 0 <= i < init.len() implies init[i] == s[i] by {}
    }
}

/// Each SJF decision runs a shortest job: at the decision time the chosen
/// process has arrived, no arrived process has a strictly shorter burst,
/// and among arrived processes with the same burst none arrived strictly
/// earlier, nor arrived together with a smaller pid.
pub proof fn lemma_sjf_runs_shortest(s: Seq<Process>, t: int)
    requires
        s.len() > 0,
    ensures
        ({
            let t1 = decision_time(s, t);
            let k = pick_shortest(s, t1);
            &&& 0 <= k < s.len()
            &&& t <= t1
            &&& s[k].arrival_time <= t1
            &&& forall|i: int|
                0 <= i < s.len() && (#[trigger] s[i]).arrival_time <= t1 ==> s[k].burst_time
                    <= s[i].burst_time
            &&& forall|i: int|
                0 <= i < s.len() && (#[trigger] s[i]).arrival_time <= t1 && s[i].burst_time
                    == s[k].burst_time ==> s[k].arrival_time <= s[i].arrival_time
            &&& forall|i: int|
                0 <= i < s.len() && (#[trigger] s[i]).arrival_time <= t1 && s[i].burst_time
                    == s[k].burst_time && s[i].arrival_time == s[k].arrival_time ==> s[k].pid
                    <= s[i].pid
        }),
{
    lemma_decision_time(s, t);
    lemma_pick_shortest_least(s, decision_time(s, t));
}

/// The members of `without_pid(s, pid)` are members of `s` with another pid.
pub proof fn lemma_without_pid_members(s: Seq<Process>, pid: u32)
    ensures
        forall|m: int|
            0 <= m < without_pid(s, pid).len() ==> (#[trigger] without_pid(s, pid)[m]).pid != pid
                && exists|i: int| 0 <= i < s.len() && s[i] == without_pid(s, pid)[m],
    decreases s.len(),
{
    if s.len() > 0 {
        let init = s.drop_last();
        lemma_without_pid_members(init, pid);
        let w = without_pid(init, pid);
        assert forall|m: int| 0 <= m < without_pid(s, pid).len() implies (#[trigger] without_pid(
            s,
            pid,
        )[m]).pid != pid && exists|i: int| 0 <= i < s.len() && s[i] == without_pid(s, pid)[m] by {
            if m < w.len() {
                let i = choose|i: int| 0 <= i < init.len() && init[i] == w[m];
                assert(s[i] == init[i]);
            } else {
                assert(s[s.len() - 1] == without_pid(s, pid)[m]);
            }
        }
    }
}

/// With distinct pids, removing the pid of `s[k]` removes just `s[k]`.
pub proof fn lemma_without_pid_distinct(s: Seq<Process>, k: int)
    requires
        distinct_pids(s),
        0 <= k < s.len(),
    ensures
        without_pid(s, s[k].pid) == s.remove(k),
    decreases s.len(),
{
    let init = s.drop_last();
    assert(distinct_pids(init)) by {
        assert forall|i: int, j: int| 0 <= i < j < init.len() implies (#[trigger] init[i]).pid
            != (#[trigger] init[j]).pid by {
            assert(init[i] == s[i] && init[j] == s[j]);
        }
    }
    if k == s.len() - 1 {
        lemma_without_pid_none(init, s[k].pid);
        assert(s.remove(k) =~= init);
    } else {
        assert(init[k] == s[k]);
        lemma_without_pid_distinct(init, k);
        assert(s.last().pid != s[k].pid);
        assert(s.remove(k) =~= init.remove(k).push(s.last()));
    }
}

proof fn lemma_without_pid_none(s: Seq<Process>, pid: u32)
    requires
        forall|i: int| 0 <= i < s.len() ==> (#[trigger] s[i]).pid != pid,
    ensures
        without_pid(s, pid) == s,
    decreases s.len(),
{
    if s.len() > 0 {
        let init = s.drop_last();
        assert forall|i: int| 0 <= i < init.len() implies (#[trigger] init[i]).pid != pid by {
            assert(init[i] == s[i]);
        }
        lemma_without_pid_none(init, pid);
        assert(s.last() == s[s.len() - 1]);
        assert(init.push(s.last()) =~= s);
    }
}

/// The first SJF decision: at the decision time (the current time if some
/// process has arrived, else the earliest arrival) the first arrived process
/// that is least by (burst, arrival, pid) runs to completion; then every
/// process with its pid leaves, and SJF goes on from the end of that run.
pub proof fn lemma_sjf_decision(s: Seq<Process>, t: int)
    requires
        s.len() > 0,
    ensures
        ({
            let t1 = decision_time(s, t);
            let k = pick_shortest(s, t1);
            &&& t1 == (if exists|i: int| 0 <= i < s.len() && (#[trigger] s[i]).arrival_time <= t {
                t
            } else {
                earliest_arrival(s)
            })
            &&& 0 <= k < s.len()
            &&& s[k].arrival_time <= t1
            &&& forall|i: int|
                0 <= i < s.len() && (#[trigger] s[i]).arrival_time <= t1 ==> !shorter(s[i], s[k])
            &&& forall|i: int| 0 <= i < k && (#[trigger] s[i]).arrival_time <= t1 ==> shorter(s[k], s[i])
            &&& sjf_from(s, t) == seq![segment(s[k].pid, t1, t1 + s[k].burst_time)] + sjf_from(
                without_pid(s, s[k].pid),
                t1 + s[k].burst_time,
            )
        }),
{
    lemma_decision_time(s, t);
    lemma_pick_shortest(s, t);
    lemma_pick_shortest_least(s, decision_time(s, t));
    if pick_shortest(s, t) >= 0 {
        assert(s[pick_shortest(s, t)].arrival_time <= t);
    }
}

/// The segments of `sjf_from`: in time order, none before `t`, each running
/// a process of the pool for its whole burst after its arrival.
proof fn lemma_sjf_from(s: Seq<Process>, t: int)
    requires
        0 <= t,
        sjf_finish(s, t) <= u32::MAX,
    ensures
        ({
            let r = sjf_from(s, t);
            &&& chart_ordered(r)
            &&& r.len() <= s.len()
            &&& forall|k: int|
                0 <= k < r.len() ==> t <= (#[trigger] r[k]).start && exists|i: int|
                    0 <= i < s.len() && s[i].pid == r[k].pid && s[i].arrival_time <= r[k].start
                        && r[k].end - r[k].start == s[i].burst_time
            &&& r.len() > 0 ==> r.last().end == sjf_finish(s, t)
        }),
    decreases s.len(),
{
    if s.len() > 0 {
        lemma_decision_time(s, t);
        let t1 = decision_time(s, t);
        let k = pick_shortest(s, t1);
        lemma_pick_shortest(s, t1);
        let p = s[k];
        let e = t1 + p.burst_time;
        let w = without_pid(s, p.pid);
        lemma_without_pid_len(s, p.pid);
        lemma_without_pid_members(s, p.pid);
        lemma_sjf_finish_grows(w, e);
        lemma_sjf_from(w, e);
        let r = sjf_from(s, t);
        let rr = sjf_from(w, e);
        assert(r == seq![segment(p.pid, t1, e)] + rr);
        assert forall|m: int| 1 <= m < r.len() implies r[m] == rr[m - 1] by {}
        assert forall|k2: int| 0 <= k2 < r.len() implies t <= (#[trigger] r[k2]).start && exists|i: int|
            0 <= i < s.len() && s[i].pid == r[k2].pid && s[i].arrival_time <= r[k2].start
                && r[k2].end - r[k2].start == s[i].burst_time by {
            if k2 == 0 {
                assert(s[k].pid == r[0].pid);
            } else {
                let m = k2 - 1;
                let j = choose|j: int|
                    0 <= j < w.len() && w[j].pid == rr[m].pid && w[j].arrival_time <= rr[m].start
                        && rr[m].end - rr[m].start == w[j].burst_time;
                let i = choose|i: int| 0 <= i < s.len() && s[i] == w[j];
                assert(s[i].pid == r[k2].pid);
            }
        }
        assert forall|i: int, j: int| 0 <= i < j < r.len() implies (#[trigger] r[i]).end <= (
        #[trigger] r[j]).start by {
            if i > 0 {
                assert(rr[i - 1].end <= rr[j - 1].start);
            } else if rr.len() > 0 {
                assert(e <= rr[j - 1].start);
            }
        }
    }
}

/// With distinct pids, SJF runs every process exactly once.
#[verifier::spinoff_prover]
#[verifier::rlimit(40)]
proof fn lemma_sjf_from_distinct(s: Seq<Process>, t: int)
    requires
        0 <= t,
        sjf_finish(s, t) <= u32::MAX,
        distinct_pids(s),
    ensures
        ({
            let r = sjf_from(s, t);
            &&& r.len() == s.len()
            &&& forall|i: int|
                #![trigger s[i]]
                0 <= i < s.len() ==> exists|k: int| 0 <= k < r.len() && (#[trigger] r[k]).pid == s[i].pid
            &&& forall|k1: int, k2: int|
                0 <= k1 < k2 < r.len() ==> (#[trigger] r[k1]).pid != (#[trigger] r[k2]).pid
        }),
    decreases s.len(),
{
    if s.len() > 0 {
        lemma_decision_time(s, t);
        let t1 = decision_time(s, t);
        let k = pick_shortest(s, t1);
        let p = s[k];
        let e = t1 + p.burst_time;
        let w = without_pid(s, p.pid);
        lemma_without_pid_len(s, p.pid);
        lemma_without_pid_distinct(s, k);
        assert(distinct_pids(w)) by {
            assert forall|a: int, b: int| 0 <= a < b < w.len() implies (#[trigger] w[a]).pid
                != (#[trigger] w[b]).pid by {
                let a2 = if a < k { a } else { a + 1 };
                let b2 = if b < k { b } else { b + 1 };
                assert(w[a] == s[a2] && w[b] == s[b2]);
            }
        }
        lemma_sjf_finish_grows(w, e);
        lemma_sjf_from(w, e);
        lemma_sjf_from_distinct(w, e);
        lemma_without_pid_members(s, p.pid);
        let r = sjf_from(s, t);
        let rr = sjf_from(w, e);
        assert(r == seq![segment(p.pid, t1, e)] + rr);
        assert forall|m: int| 1 <= m < r.len() implies r[m] == rr[m - 1] by {}
        assert forall|i: int| #![trigger s[i]] 0 <= i < s.len() implies exists|k2: int|
            0 <= k2 < r.len() && (#[trigger] r[k2]).pid == s[i].pid by {
            if i == k {
                assert(r[0].pid == s[i].pid);
            } else {
                let i2 = if i < k { i } else { i - 1 };
                assert(w[i2] == s[i]);
                let k3 = choose|k3: int| 0 <= k3 < rr.len() && (#[trigger] rr[k3]).pid == w[i2].pid;
                assert(r[k3 + 1].pid == s[i].pid);
            }
        }
        assert forall|k1: int, k2: int| 0 <= k1 < k2 < r.len() implies (#[trigger] r[k1]).pid
            != (#[trigger] r[k2]).pid by {
            if k1 > 0 {
                assert(rr[k1 - 1].pid != rr[k2 - 1].pid);
            } else {
                let m = k2 - 1;
                let j = choose|j: int|
                    0 <= j < w.len() && w[j].pid == rr[m].pid && w[j].arrival_time <= rr[m].start
                        && rr[m].end - rr[m].start == w[j].burst_time;
                assert(w[j].pid != p.pid);
            }
        }
    }
}

/// SJF runs its segments in time order, each running some process for its
/// whole burst, never before that process has arrived; with distinct pids
/// every process runs exactly once.
#[verifier::spinoff_prover]
#[verifier::rlimit(40)]
pub proof fn lemma_sjf_chart(processes: Seq<Process>)
    requires
        SjfScheduler.accepts(processes),
    ensures
        ({
            let r = SjfScheduler.chart_of(processes);
            &&& chart_ordered(r)
            &&& forall|k: int|
                0 <= k < r.len() ==> exists|i: int|
                    0 <= i < processes.len() && processes[i].pid == (#[trigger] r[k]).pid
                        && processes[i].arrival_time <= r[k].start && r[k].end - r[k].start
                        == processes[i].burst_time
            &&& distinct_pids(processes) ==> {
                &&& r.len() == processes.len()
                &&& forall|i: int|
                    #![trigger processes[i]]
                    0 <= i < processes.len() ==> exists|k: int|
                        0 <= k < r.len() && (#[trigger] r[k]).pid == processes[i].pid
                &&& forall|k1: int, k2: int|
                    0 <= k1 < k2 < r.len() ==> (#[trigger] r[k1]).pid != (#[trigger] r[k2]).pid
            }
        }),
{
    lemma_sjf_from(processes, 0);
    if distinct_pids(processes) {
        lemma_sjf_from_distinct(processes, 0);
    }
}

/// With distinct pids, every process runs in one SJF segment as long as its
/// burst, so its first run is its completion less its burst: its response
/// time equals its waiting time.
pub proof fn lemma_sjf_response_is_waiting(processes: Seq<Process>, i: int)
    requires
        SjfScheduler.accepts(processes),
        distinct_pids(processes),
        0 <= i < processes.len(),
    ensures
        ({
            let r = SjfScheduler.chart_of(processes);
            let pid = processes[i].pid;
            &&& completion_map(r).contains_key(pid)
            &&& first_run_map(r).contains_key(pid)
            &&& first_run_map(r)[pid] == completion_map(r)[pid] - processes[i].burst_time
            &&& processes[i].arrival_time <= first_run_map(r)[pid]
        }),
{
    let r = SjfScheduler.chart_of(processes);
    lemma_sjf_chart(processes);
    assert(processes[i] == processes[i]);
    let k = choose|k: int| 0 <= k < r.len() && (#[trigger] r[k]).pid == processes[i].pid;
    let i2 = choose|i2: int|
        0 <= i2 < processes.len() && processes[i2].pid == (#[trigger] r[k]).pid
            && processes[i2].arrival_time <= r[k].start && r[k].end - r[k].start
            == processes[i2].burst_time;
    if i2 != i {
        if i2 < i {
            assert(processes[i2].pid != processes[i].pid);
        } else {
            assert(processes[i].pid != processes[i2].pid);
        }
    }
    assert forall|m: int| 0 <= m < r.len() && m != k implies (#[trigger] r[m]).pid != r[k].pid by {
        if m < k {
            assert(r[m].pid != r[k].pid);
        } else {
            assert(r[k].pid != r[m].pid);
        }
    }
    lemma_single_segment_metrics(r, k);
}

proof fn lemma_jobs_drop_last(s: Seq<Process>)
    requires
        s.len() > 0,
    ensures
        jobs(s).drop_last() == jobs(s.drop_last()),
        jobs(s).last() == job(s.last()),
{
    assert(jobs(s).drop_last() =~= jobs(s.drop_last()));
}

/// SJF reads of a process only its pid, arrival and burst.
proof fn lemma_jobs_same_choices(s: Seq<Process>, t: int, pid: u32)
    ensures
        pick_shortest(jobs(s), t) == pick_shortest(s, t),
        earliest_arrival(jobs(s)) == earliest_arrival(s),
        without_pid(jobs(s), pid) == jobs(without_pid(s, pid)),
    decreases s.len(),
{
    if s.len() > 0 {
        lemma_jobs_drop_last(s);
        lemma_jobs_same_choices(s.drop_last(), t, pid);
        lemma_pick_shortest(s.drop_last(), t);
        let k = pick_shortest(s.drop_last(), t);
        if k >= 0 {
            assert(jobs(s)[k] == job(s[k]));
            assert(s.drop_last()[k] == s[k]);
        }
        let w = without_pid(s.drop_last(), pid);
        assert(jobs(w.push(s.last())) =~= jobs(w).push(job(s.last())));
    } else {
        assert(jobs(s) =~= s);
    }
}

proof fn lemma_sjf_jobs(s: Seq<Process>, t: int)
    ensures
        sjf_from(jobs(s), t) == sjf_from(s, t),
        sjf_finish(jobs(s), t) == sjf_finish(s, t),
    decreases s.len(),
{
    if s.len() > 0 {
        lemma_jobs_same_choices(s, t, 0);
        let t1 = decision_time(s, t);
        lemma_jobs_same_choices(s, t1, 0);
        let k = pick_shortest(s, t1);
        lemma_decision_time(s, t);
        let p = s[k];
        assert(jobs(s)[k] == job(p));
        lemma_jobs_same_choices(s, t1, p.pid);
        lemma_without_pid_len(s, p.pid);
        lemma_sjf_jobs(without_pid(s, p.pid), t1 + p.burst_time);
    }
}

/// `shorter` orders any two processes with different pids.
proof fn lemma_shorter_total(x: Process, y: Process)
    requires
        x.pid != y.pid,
    ensures
        shorter(x, y) || shorter(y, x),
{
}

proof fn lemma_sjf_matched(a: Seq<Process>, b: Seq<Process>, t: int)
    requires
        matched(a, b),
    ensures
        sjf_from(a, t) == sjf_from(b, t),
        sjf_finish(a, t) == sjf_finish(b, t),
    decreases a.len(),
{
    if a.len() > 0 {
        // The decision time.
        lemma_pick_shortest(a, t);
        lemma_pick_shortest(b, t);
        if pick_shortest(a, t) >= 0 {
            assert(b.contains(a[pick_shortest(a, t)]));
        }
        if pick_shortest(b, t) >= 0 {
            assert(a.contains(b[pick_shortest(b, t)]));
        }
        lemma_earliest_arrival(a);
        lemma_earliest_arrival(b);
        let ia = choose|i: int| 0 <= i < a.len() && a[i].arrival_time == earliest_arrival(a);
        let ib = choose|i: int| 0 <= i < b.len() && b[i].arrival_time == earliest_arrival(b);
        assert(b.contains(a[ia]));
        assert(a.contains(b[ib]));
        let t1 = decision_time(a, t);
        assert(t1 == decision_time(b, t));
        // The choice.
        lemma_decision_time(a, t);
        lemma_decision_time(b, t);
        lemma_pick_shortest_least(a, t1);
        lemma_pick_shortest_least(b, t1);
        let ka = pick_shortest(a, t1);
        let kb = pick_shortest(b, t1);
        assert(b.contains(a[ka]));
        assert(a.contains(b[kb]));
        let j = choose|j: int| 0 <= j < b.len() && b[j] == a[ka];
        let i = choose|i: int| 0 <= i < a.len() && a[i] == b[kb];
        assert(!shorter(a[i], a[ka]));
        assert(!shorter(b[j], b[kb]));
        if a[ka].pid != b[kb].pid {
            lemma_shorter_total(a[ka], b[kb]);
        }
        lemma_matched_pid(a, b, ka, kb);
        let p = a[ka];
        lemma_without_pid_distinct(a, ka);
        lemma_without_pid_distinct(b, kb);
        lemma_matched_remove(a, b, ka, kb);
        lemma_without_pid_len(a, p.pid);
        lemma_sjf_matched(a.remove(ka), b.remove(kb), t1 + p.burst_time);
    }
}

/// With distinct pids, the SJF chart does not depend on the order of the
/// processes, nor on their priorities or remaining times: processes that
/// are the same jobs up to order are scheduled alike, and accepted alike.
pub proof fn lemma_sjf_order_free(processes: Seq<Process>, other: Seq<Process>)
    requires
        distinct_pids(processes),
        jobs(other).to_multiset() == jobs(processes).to_multiset(),
    ensures
        SjfScheduler.accepts(other) == SjfScheduler.accepts(processes),
        SjfScheduler.chart_of(other) == SjfScheduler.chart_of(processes),
{
    lemma_jobs_distinct(processes);
    lemma_matched_from_multiset(jobs(processes), jobs(other));
    lemma_sjf_matched(jobs(processes), jobs(other), 0);
    lemma_sjf_jobs(processes, 0);
    lemma_sjf_jobs(other, 0);
}

proof fn lemma_without_pid_sum(s: Seq<Process>, k: int)
    requires
        0 <= k < s.len(),
    ensures
        sum_bursts(without_pid(s, s[k].pid)) + s[k].burst_time <= sum_bursts(s),
        forall|a: int| arrivals_within(s, a) ==> arrivals_within(without_pid(s, s[k].pid), a),
    decreases s.len(),
{
    let init = s.drop_last();
    let pid = s[k].pid;
    let l = s.last();
    lemma_without_pid_members(s, pid);
    let wi = without_pid(init, pid);
    assert(wi.push(l).drop_last() =~= wi);
    assert(sum_bursts(s) == sum_bursts(init) + l.burst_time);
    if k < s.len() - 1 {
        assert(init[k] == s[k]);
        lemma_without_pid_sum(init, k);
    } else {
        lemma_without_pid_sum_le(init, pid);
        assert(l == s[k]);
    }
    assert forall|a: int| arrivals_within(s, a) implies arrivals_within(without_pid(s, pid), a) by {
        let w = without_pid(s, pid);
        assert forall|m: int| 0 <= m < w.len() implies (#[trigger] w[m]).arrival_time <= a by {
            let i = choose|i: int| 0 <= i < s.len() && s[i] == w[m];
        }
    }
}

proof fn lemma_without_pid_sum_le(s: Seq<Process>, pid: u32)
    ensures
        sum_bursts(without_pid(s, pid)) <= sum_bursts(s),
    decreases s.len(),
{
    if s.len() > 0 {
        lemma_without_pid_sum_le(s.drop_last(), pid);
        let w = without_pid(s.drop_last(), pid);
        assert(w.push(s.last()).drop_last() =~= w);
    }
}

proof fn lemma_sjf_finish_bound(s: Seq<Process>, t: int, a: int)
    requires
        arrivals_within(s, a),
    ensures
        sjf_finish(s, t) <= (if t < a { a } else { t }) + sum_bursts(s),
    decreases s.len(),
{
    if s.len() > 0 {
        lemma_decision_time(s, t);
        let t1 = decision_time(s, t);
        let k = pick_shortest(s, t1);
        lemma_without_pid_len(s, s[k].pid);
        lemma_without_pid_sum(s, k);
        lemma_sjf_finish_bound(without_pid(s, s[k].pid), t1 + s[k].burst_time, a);
        lemma_earliest_arrival(s);
        lemma_pick_shortest(s, t);
        if pick_shortest(s, t) < 0 {
            let i = choose|i: int| 0 <= i < s.len() && s[i].arrival_time == earliest_arrival(s);
            assert(s[i].arrival_time <= a);
        }
    }
}

/// SJF completes whenever the last arrival plus the total burst time fits in `u32`.
pub proof fn lemma_sjf_accepts(processes: Seq<Process>, a: int)
    requires
        arrivals_within(processes, a),
        a + sum_bursts(processes) <= u32::MAX,
        0 <= a,
    ensures
        SjfScheduler.accepts(processes),
{
    lemma_sjf_finish_bound(processes, 0, a);
}

fn shorter_exec(a: &Process, b: &Process) -> (r: bool)
    ensures
        r == shorter(*a, *b),
{
    a.burst_time < b.burst_time || (a.burst_time == b.burst_time && (a.arrival_time
        < b.arrival_time || (a.arrival_time == b.arrival_time && a.pid < b.pid)))
}

fn find_shortest(s: &Vec<Process>, t: u32) -> (r: Option<usize>)
    ensures
        match r {
            Some(k) => k == pick_shortest(s@, t as int),
            None => pick_shortest(s@, t as int) < 0,
        },
{
    let n = s.len();
    let mut best: Option<usize> = None;
    let mut i: usize = 0;
    while i < n
        invariant
            n == s@.len(),
            i <= n,
            match best {
                Some(k) => k == pick_shortest(s@.take(i as int), t as int),
                None => pick_shortest(s@.take(i as int), t as int) < 0,
            },
        decreases n - i,
    {
        proof {
            let pre = s@.take(i + 1);
            assert(pre.drop_last() =~= s@.take(i as int));
            lemma_pick_shortest(s@.take(i as int), t as int);
            assert(pre.last() == s@[i as int]);
            if let Some(k) = best {
                assert(pre[k as int] == s@[k as int]);
            }
        }
        if s[i].arrival_time <= t {
            match best {
                None => {
                    best = Some(i);
                },
                Some(k) => {
                    if shorter_exec(&s[i], &s[k]) {
                        best = Some(i);
                    }
                },
            }
        }
        i += 1;
    }
    proof {
        assert(s@.take(n as int) =~= s@);
    }
    best
}

fn find_earliest_arrival(s: &Vec<Process>) -> (e: u32)
    requires
        s@.len() > 0,
    ensures
        e == earliest_arrival(s@),
{
    let n = s.len();
    let mut e = s[0].arrival_time;
    let mut i: usize = 1;
    proof {
        assert(s@.take(1).drop_last().len() == 0);
        assert(s@.take(1).last() == s@[0]);
    }
    while i < n
        invariant
            n == s@.len(),
            1 <= i <= n,
            e == earliest_arrival(s@.take(i as int)),
        decreases n - i,
    {
        proof {
            let pre = s@.take(i + 1);
            assert(pre.drop_last() =~= s@.take(i as int));
            assert(pre.last() == s@[i as int]);
        }
        if s[i].arrival_time < e {
            e = s[i].arrival_time;
        }
        i += 1;
    }
    proof {
        assert(s@.take(n as int) =~= s@);
    }
    e
}

fn remove_pid(s: &Vec<Process>, pid: u32) -> (r: Vec<Process>)
    ensures
        r@ == without_pid(s@, pid),
{
    let n = s.len();
    let mut r: Vec<Process> = Vec::new();
    let mut i: usize = 0;
    while i < n
        invariant
            n == s@.len(),
            i <= n,
            r@ == without_pid(s@.take(i as int), pid),
        decreases n - i,
    {
        proof {
            let pre = s@.take(i + 1);
            assert(pre.drop_last() =~= s@.take(i as int));
            assert(pre.last() == s@[i as int]);
        }
        if s[i].pid != pid {
            r.push(s[i]);
        }
        i += 1;
    }
    proof {
        assert(s@.take(n as int) =~= s@);
    }
    r
}

impl CpuScheduler for SjfScheduler {
    /// The schedule completes no later than `u32::MAX`.
    open spec fn accepts(&self, processes: Seq<Process>) -> bool {
        sjf_finish(processes, 0) <= u32::MAX
    }

    /// At each decision point the first arrived process with the least
    /// (burst, arrival, pid) runs to completion; every process with its pid
    /// then leaves the pool.
    open spec fn chart_of(&self, processes: Seq<Process>) -> Seq<GanttSegment> {
        sjf_from(processes, 0)
    }

    fn schedule(&self, processes: &[Process]) -> (chart: GanttChart) {
        let mut remaining: Vec<Process> = vstd::slice::slice_to_vec(processes);
        let mut chart = GanttChart::new();
        let mut current_time: u32 = 0;
        proof {
            assert(chart.segments@ + sjf_from(remaining@, 0) =~= sjf_from(processes@, 0));
        }
        while remaining.len() > 0
            invariant
                sjf_finish(processes@, 0) <= u32::MAX,
                sjf_finish(remaining@, current_time as int) == sjf_finish(processes@, 0),
                chart.segments@ + sjf_from(remaining@, current_time as int) == sjf_from(
                    processes@,
                    0,
                ),
            decreases remaining@.len(),
        {
            let ghost s = remaining@;
            let ghost t0 = current_time as int;
            proof {
                lemma_decision_time(s, t0);
            }
            let mut chosen = find_shortest(&remaining, current_time);
            if chosen.is_none() {
                // Jump to the next arrival.
                current_time = find_earliest_arrival(&remaining);
                chosen = find_shortest(&remaining, current_time);
            }
            let k = chosen.unwrap();
            let p = remaining[k];
            proof {
                assert(current_time == decision_time(s, t0));
                lemma_without_pid_len(s, p.pid);
                lemma_sjf_finish_grows(without_pid(s, p.pid), current_time + p.burst_time);
            }
            let ghost before = chart.segments@;
            chart.add(p.pid, current_time, current_time + p.burst_time);
            proof {
                assert(chart.segments@ + sjf_from(without_pid(s, p.pid), current_time + p.burst_time)
                    =~= before + sjf_from(s, t0));
            }
            current_time += p.burst_time;
            remaining = remove_pid(&remaining, p.pid);
        }
        proof {
            assert(chart.segments@ + Seq::<GanttSegment>::empty() =~= chart.segments@);
        }
        chart
    }
}

} // verus!
