//! Arrival order: processes sorted by arrival time, then pid, keeping the
//! input order among equal keys (a stable sort).
use vstd::prelude::*;
use crate::permutation::{lemma_matched_from_multiset, lemma_matched_pid, lemma_matched_remove, matched};
use crate::{Process, arrivals_within, distinct_pids, job, jobs, sum_bursts};

verus! {

/// `a` may run before `b` in arrival order: it arrives earlier, or at the
/// same time with a pid no larger.
pub open spec fn arrives_no_later(a: Process, b: Process) -> bool {
    a.arrival_time < b.arrival_time || (a.arrival_time == b.arrival_time && a.pid <= b.pid)
}

/// Inserts `p` into an arrival-ordered sequence, after every element that
/// arrives no later than `p`.
pub open spec fn insert_by_arrival(s: Seq<Process>, p: Process) -> Seq<Process>
    decreases s.len(),
{
    if s.len() == 0 || arrives_no_later(s.last(), p) {
        s.push(p)
    } else {
        insert_by_arrival(s.drop_last(), p).push(s.last())
    }
}

/// The processes in arrival order (stable sort by arrival time, then pid).
pub open spec fn arrival_order(s: Seq<Process>) -> Seq<Process>
    decreases s.len(),
{
    if s.len() == 0 {
        s
    } else {
        insert_by_arrival(arrival_order(s.drop_last()), s.last())
    }
}

/// A sequence is in arrival order.
pub open spec fn sorted_by_arrival(s: Seq<Process>) -> bool {
    forall|i: int, j: int| 0 <= i < j < s.len() ==> arrives_no_later(#[trigger] s[i], #[trigger] s[j])
}

proof fn lemma_insert_bounded(s: Seq<Process>, p: Process, b: Process)
    requires
        forall|i: int| 0 <= i < s.len() ==> arrives_no_later(#[trigger] s[i], b),
        arrives_no_later(p, b),
    ensures
        forall|i: int|
            0 <= i < insert_by_arrival(s, p).len() ==> arrives_no_later(
                #[trigger] insert_by_arrival(s, p)[i],
                b,
            ),
    decreases s.len(),
{
    if s.len() > 0 && !arrives_no_later(s.last(), p) {
        let init = s.drop_last();
        assert forall|i: int| 0 <= i < init.len() implies arrives_no_later(#[trigger] init[i], b) by {
            assert(init[i] == s[i]);
        }
        lemma_insert_bounded(init, p, b);
        assert(arrives_no_later(s[s.len() - 1], b));
        let m = insert_by_arrival(init, p);
        let r = m.push(s.last());
        assert forall|i: int| 0 <= i < r.len() implies arrives_no_later(#[trigger] r[i], b) by {
            if i < m.len() {
                assert(r[i] == m[i]);
            }
        }
    } else {
        let r = s.push(p);
        assert forall|i: int| 0 <= i < r.len() implies arrives_no_later(#[trigger] r[i], b) by {
            if i < s.len() {
                assert(r[i] == s[i]);
            }
        }
    }
}

/// Inserting keeps a sequence in arrival order and adds exactly `p`.
pub proof fn lemma_insert_by_arrival(s: Seq<Process>, p: Process)
    ensures
        insert_by_arrival(s, p).to_multiset() == s.to_multiset().insert(p),
        insert_by_arrival(s, p).len() == s.len() + 1,
        sorted_by_arrival(s) ==> sorted_by_arrival(insert_by_arrival(s, p)),
    decreases s.len(),
{
    broadcast use vstd::seq_lib::group_to_multiset_ensures;

    if s.len() == 0 || arrives_no_later(s.last(), p) {
        if sorted_by_arrival(s) && s.len() > 0 {
            let r = s.push(p);
            assert forall|i: int, j: int| 0 <= i < j < r.len() implies arrives_no_later(
                #[trigger] r[i],
                #[trigger] r[j],
            ) by {
                if j == s.len() {
                    assert(arrives_no_later(s[i], s[s.len() - 1]) || i == s.len() - 1);
                }
            }
        }
    } else {
        let init = s.drop_last();
        let l = s.last();
        lemma_insert_by_arrival(init, p);
        assert(s =~= init.push(l));
        assert(insert_by_arrival(s, p).to_multiset() =~= s.to_multiset().insert(p));
        if sorted_by_arrival(s) {
            let m = insert_by_arrival(init, p);
            assert(sorted_by_arrival(init)) by {
                assert forall|i: int, j: int| 0 <= i < j < init.len() implies arrives_no_later(
                    #[trigger] init[i],
                    #[trigger] init[j],
                ) by {
                    assert(init[i] == s[i] && init[j] == s[j]);
                }
            }
            assert forall|i: int| 0 <= i < init.len() implies arrives_no_later(#[trigger] init[i], l) by {
                assert(init[i] == s[i]);
                assert(l == s[s.len() - 1]);
            }
            lemma_insert_bounded(init, p, l);
            let r = m.push(l);
            assert forall|i: int, j: int| 0 <= i < j < r.len() implies arrives_no_later(
                #[trigger] r[i],
                #[trigger] r[j],
            ) by {
                if j == m.len() {
                    assert(arrives_no_later(m[i], l));
                }
            }
        }
    }
}

/// Arrival order is a sorted rearrangement of the processes.
pub proof fn lemma_arrival_order(s: Seq<Process>)
    ensures
        arrival_order(s).to_multiset() == s.to_multiset(),
        arrival_order(s).len() == s.len(),
        sorted_by_arrival(arrival_order(s)),
    decreases s.len(),
{
    broadcast use vstd::seq_lib::group_to_multiset_ensures;

    if s.len() > 0 {
        let init = s.drop_last();
        lemma_arrival_order(init);
        lemma_insert_by_arrival(arrival_order(init), s.last());
        assert(s =~= init.push(s.last()));
    }
}

/// Arrival order never puts a process after one that arrived strictly
/// later: arrival times never decrease along it, and processes arriving at
/// the same time come by pid.
pub proof fn lemma_arrival_order_by_time(s: Seq<Process>)
    ensures
        forall|i: int, j: int|
            0 <= i < j < arrival_order(s).len() ==> (#[trigger] arrival_order(s)[i]).arrival_time
                <= (#[trigger] arrival_order(s)[j]).arrival_time,
        forall|i: int, j: int|
            0 <= i < j < arrival_order(s).len() && (#[trigger] arrival_order(s)[i]).arrival_time
                == (#[trigger] arrival_order(s)[j]).arrival_time ==> arrival_order(s)[i].pid
                <= arrival_order(s)[j].pid,
{
    lemma_arrival_order(s);
}

/// Every process in arrival order is one of the input processes.
pub proof fn lemma_arrival_order_member(s: Seq<Process>, k: int)
    requires
        0 <= k < s.len(),
    ensures
        exists|i: int| 0 <= i < s.len() && s[i] == arrival_order(s)[k],
{
    broadcast use vstd::seq_lib::group_to_multiset_ensures;

    lemma_arrival_order(s);
    let x = arrival_order(s)[k];
    assert(arrival_order(s).contains(x));
    assert(s.to_multiset().count(x) > 0);
    assert(s.contains(x));
}

proof fn lemma_insert_sum_bursts(s: Seq<Process>, p: Process)
    ensures
        sum_bursts(insert_by_arrival(s, p)) == sum_bursts(s) + p.burst_time,
    decreases s.len(),
{
    if s.len() > 0 && !arrives_no_later(s.last(), p) {
        lemma_insert_sum_bursts(s.drop_last(), p);
        let r = insert_by_arrival(s.drop_last(), p).push(s.last());
        assert(r.drop_last() =~= insert_by_arrival(s.drop_last(), p));
    } else {
        assert(s.push(p).drop_last() =~= s);
    }
}

/// Arrival order keeps the total burst time and any bound on arrivals.
pub proof fn lemma_arrival_order_totals(s: Seq<Process>, a: int)
    ensures
        sum_bursts(arrival_order(s)) == sum_bursts(s),
        arrivals_within(s, a) ==> arrivals_within(arrival_order(s), a),
    decreases s.len(),
{
    if s.len() > 0 {
        lemma_arrival_order_totals(s.drop_last(), a);
        lemma_insert_sum_bursts(arrival_order(s.drop_last()), s.last());
        if arrivals_within(s, a) {
            let o = arrival_order(s);
            lemma_arrival_order(s);
            assert forall|k: int| 0 <= k < o.len() implies (#[trigger] o[k]).arrival_time <= a by {
                lemma_arrival_order_member(s, k);
            }
        }
    }
}

proof fn lemma_insert_distinct(s: Seq<Process>, p: Process)
    requires
        distinct_pids(s),
        forall|i: int| 0 <= i < s.len() ==> (#[trigger] s[i]).pid != p.pid,
    ensures
        distinct_pids(insert_by_arrival(s, p)),
        forall|m: int|
            0 <= m < insert_by_arrival(s, p).len() ==> #[trigger] insert_by_arrival(s, p)[m] == p
                || s.contains(insert_by_arrival(s, p)[m]),
    decreases s.len(),
{
    if s.len() == 0 || arrives_no_later(s.last(), p) {
        let r = s.push(p);
        assert forall|m: int| 0 <= m < r.len() implies #[trigger] r[m] == p || s.contains(r[m]) by {
            if m < s.len() {
                assert(r[m] == s[m]);
            }
        }
        assert forall|i: int, j: int| 0 <= i < j < r.len() implies (#[trigger] r[i]).pid != (
        #[trigger] r[j]).pid by {
            assert(r[i] == s[i]);
        }
    } else {
        let init = s.drop_last();
        let l = s.last();
        assert(distinct_pids(init)) by {
            assert forall|i: int, j: int| 0 <= i < j < init.len() implies (#[trigger] init[i]).pid
                != (#[trigger] init[j]).pid by {
                assert(init[i] == s[i] && init[j] == s[j]);
            }
        }
        assert forall|i: int| 0 <= i < init.len() implies (#[trigger] init[i]).pid != p.pid by {
            assert(init[i] == s[i]);
        }
        lemma_insert_distinct(init, p);
        let m0 = insert_by_arrival(init, p);
        let r = m0.push(l);
        assert(l == s[s.len() - 1]);
        assert forall|m: int| 0 <= m < r.len() implies #[trigger] r[m] == p || s.contains(r[m]) by {
            if m < m0.len() {
                assert(r[m] == m0[m]);
                if m0[m] != p {
                    let i = choose|i: int| 0 <= i < init.len() && init[i] == m0[m];
                    assert(s[i] == r[m]);
                }
            } else {
                assert(s[s.len() - 1] == r[m]);
            }
        }
        assert forall|i: int, j: int| 0 <= i < j < r.len() implies (#[trigger] r[i]).pid != (
        #[trigger] r[j]).pid by {
            if j == m0.len() {
                assert(r[i] == m0[i]);
                if m0[i] != p {
                    let a = choose|a: int| 0 <= a < init.len() && init[a] == m0[i];
                    assert(s[a] == init[a]);
                    assert(s[a].pid != s[s.len() - 1].pid);
                }
            } else {
                assert(r[i] == m0[i] && r[j] == m0[j]);
            }
        }
    }
}

/// Arrival order keeps the pids distinct when they are.
pub proof fn lemma_arrival_order_distinct(s: Seq<Process>)
    requires
        distinct_pids(s),
    ensures
        distinct_pids(arrival_order(s)),
    decreases s.len(),
{
    if s.len() > 0 {
        let init = s.drop_last();
        let l = s.last();
        assert(distinct_pids(init)) by {
            assert forall|i: int, j: int| 0 <= i < j < init.len() implies (#[trigger] init[i]).pid
                != (#[trigger] init[j]).pid by {
                assert(init[i] == s[i] && init[j] == s[j]);
            }
        }
        lemma_arrival_order_distinct(init);
        let o = arrival_order(init);
        lemma_arrival_order(init);
        assert forall|i: int| 0 <= i < o.len() implies (#[trigger] o[i]).pid != l.pid by {
            lemma_arrival_order_member(init, i);
            let a = choose|a: int| 0 <= a < init.len() && init[a] == o[i];
            assert(s[a] == init[a]);
            assert(s[s.len() - 1] == l);
        }
        lemma_insert_distinct(o, l);
    }
}

/// Every input process has a place in arrival order.
pub proof fn lemma_arrival_order_covers(s: Seq<Process>, i: int)
    requires
        0 <= i < s.len(),
    ensures
        exists|j: int| 0 <= j < s.len() && arrival_order(s)[j] == s[i],
{
    broadcast use vstd::seq_lib::group_to_multiset_ensures;

    lemma_arrival_order(s);
    assert(s.contains(s[i]));
    assert(arrival_order(s).to_multiset().count(s[i]) > 0);
    assert(arrival_order(s).contains(s[i]));
}

/// The processes of `s` that arrive at `a` with pid `pid`, in their order in `s`.
pub open spec fn same_key(s: Seq<Process>, a: u32, pid: u32) -> Seq<Process>
    decreases s.len(),
{
    if s.len() == 0 {
        s
    } else if s.last().arrival_time == a && s.last().pid == pid {
        same_key(s.drop_last(), a, pid).push(s.last())
    } else {
        same_key(s.drop_last(), a, pid)
    }
}

proof fn lemma_insert_same_key(t: Seq<Process>, p: Process, a: u32, pid: u32)
    ensures
        same_key(insert_by_arrival(t, p), a, pid) == same_key(t.push(p), a, pid),
    decreases t.len(),
{
    assert(t.push(p).drop_last() =~= t);
    if t.len() > 0 && !arrives_no_later(t.last(), p) {
        let init = t.drop_last();
        let l = t.last();
        lemma_insert_same_key(init, p, a, pid);
        assert(init.push(p).drop_last() =~= init);
        let m = insert_by_arrival(init, p);
        assert(m.push(l).drop_last() =~= m);
        assert(t =~= init.push(l));
        let base = same_key(init, a, pid);
        let in_p = p.arrival_time == a && p.pid == pid;
        let in_l = l.arrival_time == a && l.pid == pid;
        assert(!(in_p && in_l));
        assert(same_key(init.push(p), a, pid) == if in_p { base.push(p) } else { base });
        assert(same_key(t, a, pid) == if in_l { base.push(l) } else { base });
        assert(same_key(m.push(l), a, pid) == if in_l {
            same_key(m, a, pid).push(l)
        } else {
            same_key(m, a, pid)
        });
    }
}

/// Arrival order is stable: the processes that share an arrival time and a
/// pid keep their input order.
pub proof fn lemma_arrival_order_stable(s: Seq<Process>, a: u32, pid: u32)
    ensures
        same_key(arrival_order(s), a, pid) == same_key(s, a, pid),
    decreases s.len(),
{
    if s.len() > 0 {
        let init = s.drop_last();
        lemma_arrival_order_stable(init, a, pid);
        lemma_insert_same_key(arrival_order(init), s.last(), a, pid);
        let o = arrival_order(init);
        assert(o.push(s.last()).drop_last() =~= o);
    }
}

proof fn lemma_insert_jobs(t: Seq<Process>, p: Process)
    ensures
        jobs(insert_by_arrival(t, p)) == insert_by_arrival(jobs(t), job(p)),
    decreases t.len(),
{
    assert(jobs(t.push(p)) =~= jobs(t).push(job(p)));
    if t.len() > 0 {
        assert(jobs(t).drop_last() =~= jobs(t.drop_last()));
        assert(jobs(t).last() == job(t.last()));
        if !arrives_no_later(t.last(), p) {
            lemma_insert_jobs(t.drop_last(), p);
            let m = insert_by_arrival(t.drop_last(), p);
            assert(jobs(m.push(t.last())) =~= jobs(m).push(job(t.last())));
        }
    }
}

/// Arrival order reads of a process only its arrival time and pid.
pub proof fn lemma_arrival_order_jobs(s: Seq<Process>)
    ensures
        jobs(arrival_order(s)) == arrival_order(jobs(s)),
    decreases s.len(),
{
    if s.len() > 0 {
        lemma_arrival_order_jobs(s.drop_last());
        lemma_insert_jobs(arrival_order(s.drop_last()), s.last());
        assert(jobs(s).drop_last() =~= jobs(s.drop_last()));
        assert(jobs(s).last() == job(s.last()));
    } else {
        assert(jobs(s) =~= s);
    }
}

/// Two sequences in arrival order that hold the same processes, with
/// distinct pids, are equal.
pub proof fn lemma_sorted_matched_equal(a: Seq<Process>, b: Seq<Process>)
    requires
        sorted_by_arrival(a),
        sorted_by_arrival(b),
        matched(a, b),
    ensures
        a == b,
    decreases a.len(),
{
    if a.len() > 0 {
        let n = a.len() - 1;
        assert(b.contains(a[n]));
        let j = choose|j: int| 0 <= j < b.len() && b[j] == a[n];
        assert(a.contains(b[n]));
        let i = choose|i: int| 0 <= i < a.len() && a[i] == b[n];
        if j < n {
            assert(arrives_no_later(b[j], b[n]));
        }
        if i < n {
            assert(arrives_no_later(a[i], a[n]));
        }
        lemma_matched_pid(a, b, n, n);
        lemma_matched_remove(a, b, n, n);
        assert(a.remove(n) =~= a.drop_last());
        assert(b.remove(n) =~= b.drop_last());
        let a2 = a.drop_last();
        let b2 = b.drop_last();
        assert(sorted_by_arrival(a2)) by {
            assert forall|x: int, y: int| 0 <= x < y < a2.len() implies arrives_no_later(
                #[trigger] a2[x],
                #[trigger] a2[y],
            ) by {
                assert(a2[x] == a[x] && a2[y] == a[y]);
            }
        }
        assert(sorted_by_arrival(b2)) by {
            assert forall|x: int, y: int| 0 <= x < y < b2.len() implies arrives_no_later(
                #[trigger] b2[x],
                #[trigger] b2[y],
            ) by {
                assert(b2[x] == b[x] && b2[y] == b[y]);
            }
        }
        lemma_sorted_matched_equal(a2, b2);
        assert(a =~= a2.push(a[n]));
        assert(b =~= b2.push(b[n]));
    } else {
        assert(a =~= b);
    }
}

/// With distinct pids, the same jobs in any order come out in the same
/// arrival order, as jobs.
pub proof fn lemma_arrival_order_free(s: Seq<Process>, other: Seq<Process>)
    requires
        distinct_pids(s),
        jobs(other).to_multiset() == jobs(s).to_multiset(),
    ensures
        jobs(arrival_order(s)) == jobs(arrival_order(other)),
{
    crate::lemma_jobs_distinct(s);
    lemma_arrival_order(jobs(s));
    lemma_arrival_order(jobs(other));
    lemma_arrival_order_distinct(jobs(s));
    lemma_matched_from_multiset(arrival_order(jobs(s)), arrival_order(jobs(other)));
    lemma_sorted_matched_equal(arrival_order(jobs(s)), arrival_order(jobs(other)));
    lemma_arrival_order_jobs(s);
    lemma_arrival_order_jobs(other);
}

fn arrives_no_later_exec(a: &Process, b: &Process) -> (r: bool)
    ensures
        r == arrives_no_later(*a, *b),
{
    a.arrival_time < b.arrival_time || (a.arrival_time == b.arrival_time && a.pid <= b.pid)
}

proof fn lemma_insert_prefix(s: Seq<Process>, p: Process, j: int)
    requires
        0 < j <= s.len(),
        !arrives_no_later(s[j - 1], p),
    ensures
        insert_by_arrival(s.take(j), p) == insert_by_arrival(s.take(j - 1), p).push(s[j - 1]),
{
    assert(s.take(j).drop_last() =~= s.take(j - 1));
}

/// Sorts the processes into arrival order.
pub fn sort_by_arrival(ps: &[Process]) -> (v: Vec<Process>)
    ensures
        v@ == arrival_order(ps@),
{
    let n = ps.len();
    let mut v: Vec<Process> = Vec::new();
    let mut i: usize = 0;
    while i < n
        invariant
            n == ps@.len(),
            i <= n,
            v@ == arrival_order(ps@.take(i as int)),
        decreases n - i,
    {
        let p = ps[i];
        let mut j = v.len();
        proof {
            assert(v@.take(j as int) =~= v@);
            assert(v@.skip(j as int) =~= Seq::<Process>::empty());
            assert(insert_by_arrival(v@, p) + Seq::<Process>::empty() =~= insert_by_arrival(v@, p));
        }
        while j > 0 && !arrives_no_later_exec(&v[j - 1], &p)
            invariant
                j <= v@.len(),
                insert_by_arrival(v@, p) == insert_by_arrival(v@.take(j as int), p) + v@.skip(
                    j as int,
                ),
            decreases j,
        {
            proof {
                lemma_insert_prefix(v@, p, j as int);
                assert(v@.skip(j - 1) =~= seq![v@[j - 1]] + v@.skip(j as int));
                assert(insert_by_arrival(v@.take(j - 1), p).push(v@[j - 1]) + v@.skip(j as int)
                    =~= insert_by_arrival(v@.take(j - 1), p) + v@.skip(j - 1));
            }
            j -= 1;
        }
        proof {
            assert(v@.take(j as int).len() == 0 || v@.take(j as int).last() == v@[j - 1]);
            assert(insert_by_arrival(v@.take(j as int), p) == v@.take(j as int).push(p));
            assert(ps@.take(i + 1).drop_last() =~= ps@.take(i as int));
            assert(ps@.take(i + 1).last() == p);
        }
        let ghost old_v = v@;
        v.insert(j, p);
        proof {
            assert(v@ =~= old_v.take(j as int).push(p) + old_v.skip(j as int));
        }
        i += 1;
    }
    proof {
        assert(ps@.take(n as int) =~= ps@);
    }
    v
}

} // verus!
