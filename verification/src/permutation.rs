//! Rearrangements of processes with distinct pids.
use vstd::prelude::*;
use crate::{Process, distinct_pids, sum_remaining};

verus! {

/// Every process of `a` is in `b`.
pub open spec fn covered_by(a: Seq<Process>, b: Seq<Process>) -> bool {
    forall|i: int| 0 <= i < a.len() ==> #[trigger] b.contains(a[i])
}

/// `a` and `b` hold the same processes, each once, in some order.
pub open spec fn matched(a: Seq<Process>, b: Seq<Process>) -> bool {
    &&& a.len() == b.len()
    &&& distinct_pids(a)
    &&& distinct_pids(b)
    &&& covered_by(a, b)
    &&& covered_by(b, a)
}

/// A rearrangement of processes with distinct pids matches them.
pub proof fn lemma_matched_from_multiset(a: Seq<Process>, b: Seq<Process>)
    requires
        a.to_multiset() == b.to_multiset(),
        distinct_pids(a),
    ensures
        matched(a, b),
{
    broadcast use vstd::seq_lib::group_to_multiset_ensures;

    assert(a.no_duplicates()) by {
        assert forall|i: int, j: int| 0 <= i < a.len() && 0 <= j < a.len() && i != j implies a[i]
            != a[j] by {
            if i < j {
                assert(a[i].pid != a[j].pid);
            } else {
                assert(a[j].pid != a[i].pid);
            }
        }
    }
    a.lemma_multiset_has_no_duplicates();
    b.lemma_multiset_has_no_duplicates_conv();
    assert(a.to_multiset().len() == a.len());
    assert(b.to_multiset().len() == b.len());
    assert forall|i: int| 0 <= i < a.len() implies #[trigger] b.contains(a[i]) by {
        assert(a.contains(a[i]));
        assert(b.to_multiset().count(a[i]) > 0);
        assert(b.contains(a[i]));
    }
    assert forall|j: int| 0 <= j < b.len() implies #[trigger] a.contains(b[j]) by {
        assert(b.contains(b[j]));
        assert(a.to_multiset().count(b[j]) > 0);
        assert(a.contains(b[j]));
    }
    assert(distinct_pids(b)) by {
        assert forall|x: int, y: int| 0 <= x < y < b.len() implies (#[trigger] b[x]).pid != (
        #[trigger] b[y]).pid by {
            assert(a.contains(b[x]));
            let i = choose|i: int| 0 <= i < a.len() && a[i] == b[x];
            assert(a.contains(b[y]));
            let i2 = choose|i2: int| 0 <= i2 < a.len() && a[i2] == b[y];
            assert(b[x] != b[y]);
            if i < i2 {
                assert(a[i].pid != a[i2].pid);
            } else if i2 < i {
                assert(a[i2].pid != a[i].pid);
            }
        }
    }
}

/// In matched sequences, processes with one pid are the same process.
pub proof fn lemma_matched_pid(a: Seq<Process>, b: Seq<Process>, i: int, j: int)
    requires
        matched(a, b),
        0 <= i < a.len(),
        0 <= j < b.len(),
        a[i].pid == b[j].pid,
    ensures
        a[i] == b[j],
{
    assert(b.contains(a[i]));
    let j2 = choose|j2: int| 0 <= j2 < b.len() && b[j2] == a[i];
    if j2 < j {
        assert(b[j2].pid != b[j].pid);
    } else if j < j2 {
        assert(b[j].pid != b[j2].pid);
    }
}

/// Replacing a matched process by another with its pid keeps the match.
#[verifier::spinoff_prover]
#[verifier::rlimit(50)]
pub proof fn lemma_matched_update(a: Seq<Process>, b: Seq<Process>, i: int, j: int, v: Process)
    requires
        matched(a, b),
        0 <= i < a.len(),
        0 <= j < b.len(),
        a[i] == b[j],
        v.pid == a[i].pid,
    ensures
        matched(a.update(i, v), b.update(j, v)),
{
    let a2 = a.update(i, v);
    let b2 = b.update(j, v);
    assert(distinct_pids(a2)) by {
        assert forall|x: int, y: int| 0 <= x < y < a2.len() implies (#[trigger] a2[x]).pid != (
        #[trigger] a2[y]).pid by {
            assert(a[x].pid != a[y].pid);
        }
    }
    assert(distinct_pids(b2)) by {
        assert forall|x: int, y: int| 0 <= x < y < b2.len() implies (#[trigger] b2[x]).pid != (
        #[trigger] b2[y]).pid by {
            assert(b[x].pid != b[y].pid);
        }
    }
    assert forall|x: int| 0 <= x < a2.len() implies #[trigger] b2.contains(a2[x]) by {
        if x == i {
            assert(b2[j] == a2[x]);
        } else {
            assert(b.contains(a[x]));
            let y = choose|y: int| 0 <= y < b.len() && b[y] == a[x];
            if y == j {
                if x < i {
                    assert(a[x].pid != a[i].pid);
                } else {
                    assert(a[i].pid != a[x].pid);
                }
            }
            assert(b2[y] == a2[x]);
        }
    }
    assert forall|y: int| 0 <= y < b2.len() implies #[trigger] a2.contains(b2[y]) by {
        if y == j {
            assert(a2[i] == b2[y]);
        } else {
            assert(a.contains(b[y]));
            let x = choose|x: int| 0 <= x < a.len() && a[x] == b[y];
            if x == i {
                if y < j {
                    assert(b[y].pid != b[j].pid);
                } else {
                    assert(b[j].pid != b[y].pid);
                }
            }
            assert(a2[x] == b2[y]);
        }
    }
}

/// Removing a matched process from both sides keeps the match.
#[verifier::spinoff_prover]
#[verifier::rlimit(50)]
pub proof fn lemma_matched_remove(a: Seq<Process>, b: Seq<Process>, i: int, j: int)
    requires
        matched(a, b),
        0 <= i < a.len(),
        0 <= j < b.len(),
        a[i] == b[j],
    ensures
        matched(a.remove(i), b.remove(j)),
{
    let a2 = a.remove(i);
    let b2 = b.remove(j);
    assert forall|x: int| 0 <= x < a2.len() implies a2[x] == a[if x < i { x } else { x + 1 }] by {}
    assert forall|y: int| 0 <= y < b2.len() implies b2[y] == b[if y < j { y } else { y + 1 }] by {}
    assert(distinct_pids(a2)) by {
        assert forall|x: int, y: int| 0 <= x < y < a2.len() implies (#[trigger] a2[x]).pid != (
        #[trigger] a2[y]).pid by {
            let x2 = if x < i { x } else { x + 1 };
            let y2 = if y < i { y } else { y + 1 };
            assert(a[x2].pid != a[y2].pid);
        }
    }
    assert(distinct_pids(b2)) by {
        assert forall|x: int, y: int| 0 <= x < y < b2.len() implies (#[trigger] b2[x]).pid != (
        #[trigger] b2[y]).pid by {
            let x2 = if x < j { x } else { x + 1 };
            let y2 = if y < j { y } else { y + 1 };
            assert(b[x2].pid != b[y2].pid);
        }
    }
    assert forall|x: int| 0 <= x < a2.len() implies #[trigger] b2.contains(a2[x]) by {
        let x2 = if x < i { x } else { x + 1 };
        assert(b.contains(a[x2]));
        let y2 = choose|y2: int| 0 <= y2 < b.len() && b[y2] == a[x2];
        if y2 == j {
            if x2 < i {
                assert(a[x2].pid != a[i].pid);
            } else {
                assert(a[i].pid != a[x2].pid);
            }
        }
        let y = if y2 < j { y2 } else { y2 - 1 };
        assert(b2[y] == a2[x]);
    }
    assert forall|y: int| 0 <= y < b2.len() implies #[trigger] a2.contains(b2[y]) by {
        let y2 = if y < j { y } else { y + 1 };
        assert(a.contains(b[y2]));
        let x2 = choose|x2: int| 0 <= x2 < a.len() && a[x2] == b[y2];
        if x2 == i {
            if y2 < j {
                assert(b[y2].pid != b[j].pid);
            } else {
                assert(b[j].pid != b[y2].pid);
            }
        }
        let x = if x2 < i { x2 } else { x2 - 1 };
        assert(a2[x] == b2[y]);
    }
}

/// Removing a process takes its remaining time off the sum.
pub proof fn lemma_sum_remaining_remove(s: Seq<Process>, i: int)
    requires
        0 <= i < s.len(),
    ensures
        sum_remaining(s) == sum_remaining(s.remove(i)) + s[i].remaining_time,
    decreases s.len(),
{
    if i == s.len() - 1 {
        assert(s.remove(i) =~= s.drop_last());
    } else {
        lemma_sum_remaining_remove(s.drop_last(), i);
        assert(s.remove(i) =~= s.drop_last().remove(i).push(s.last()));
        assert(s.remove(i).drop_last() =~= s.drop_last().remove(i));
    }
}

/// Matched sequences have the same sum of remaining times.
pub proof fn lemma_matched_sum(a: Seq<Process>, b: Seq<Process>)
    requires
        matched(a, b),
    ensures
        sum_remaining(a) == sum_remaining(b),
    decreases a.len(),
{
    if a.len() > 0 {
        let i = a.len() - 1;
        assert(a[i] == a[i]);
        assert(b.contains(a[i]));
        let j = choose|j: int| 0 <= j < b.len() && b[j] == a[i];
        lemma_matched_remove(a, b, i, j);
        assert(a.remove(i) =~= a.drop_last());
        lemma_matched_sum(a.remove(i), b.remove(j));
        lemma_sum_remaining_remove(b, j);
        lemma_sum_remaining_remove(a, i);
    }
}

} // verus!
