//! Gantt chart and scheduling metrics.
use vstd::prelude::*;

verus! {

/// A single segment in a Gantt chart.
#[derive(Debug, Clone, Copy, PartialEq, Eq, Structural)]
pub struct GanttSegment {
    pub pid: u32,
    pub start: u32,
    pub end: u32,
}

/// The segment of `pid` from `start` to `end`.
pub open spec fn segment(pid: u32, start: int, end: int) -> GanttSegment {
    GanttSegment { pid, start: start as u32, end: end as u32 }
}

/// A Gantt chart representing a CPU schedule.
#[derive(Debug, Clone)]
pub struct GanttChart {
    pub segments: Vec<GanttSegment>,
}

/// The end of the last segment, or 0 for an empty chart.
pub open spec fn chart_end(segs: Seq<GanttSegment>) -> int {
    if segs.len() == 0 {
        0
    } else {
        segs.last().end as int
    }
}

impl GanttChart {
    pub fn new() -> (chart: Self)
        ensures
            chart.segments@ == Seq::<GanttSegment>::empty(),
    {
        GanttChart { segments: Vec::new() }
    }

    /// Add a segment.
    pub fn add(&mut self, pid: u32, start: u32, end: u32)
        ensures
            final(self).segments@ == old(self).segments@.push(GanttSegment { pid, start, end }),
    {
        self.segments.push(GanttSegment { pid, start, end });
    }

    /// Total time of the schedule: the end of the last segment.
    pub fn total_time(&self) -> (t: u32)
        ensures
            t == chart_end(self.segments@),
    {
        let n = self.segments.len();
        if n == 0 {
            0
        } else {
            self.segments[n - 1].end
        }
    }
}

/// The character of the decimal digit `d`.
pub open spec fn digit_char(d: int) -> char {
    if d == 0 {
        '0'
    } else if d == 1 {
        '1'
    } else if d == 2 {
        '2'
    } else if d == 3 {
        '3'
    } else if d == 4 {
        '4'
    } else if d == 5 {
        '5'
    } else if d == 6 {
        '6'
    } else if d == 7 {
        '7'
    } else if d == 8 {
        '8'
    } else {
        '9'
    }
}

/// The decimal representation of `n`, without leading zeros.
pub open spec fn decimal(n: nat) -> Seq<char>
    decreases n,
{
    if n < 10 {
        seq![digit_char(n as int)]
    } else {
        decimal(n / 10).push(digit_char((n % 10) as int))
    }
}

/// The number that a string of decimal digits reads as, most significant
/// digit first.
pub open spec fn digits_value(s: Seq<char>) -> int
    decreases s.len(),
{
    if s.len() == 0 {
        0
    } else {
        digits_value(s.drop_last()) * 10 + ((s.last() as int) - ('0' as int))
    }
}

/// The character of a digit `d` is the ASCII digit `'0' + d`.
pub proof fn lemma_digit_char_ascii(d: int)
    requires
        0 <= d < 10,
    ensures
        digit_char(d) as int == ('0' as int) + d,
{
}

/// The decimal text of `n` consists of ASCII digits, has no leading zero
/// (but for `n == 0`, which reads `0`), and reads back as `n`.
pub proof fn lemma_decimal_reads_back(n: nat)
    ensures
        decimal(n).len() >= 1,
        forall|i: int|
            0 <= i < decimal(n).len() ==> ('0' as int) <= (#[trigger] decimal(n)[i]) as int <= ('9'
                as int),
        n > 0 ==> decimal(n)[0] != '0',
        n == 0 ==> decimal(n) == seq!['0'],
        digits_value(decimal(n)) == n,
    decreases n,
{
    if n < 10 {
        lemma_digit_char_ascii(n as int);
        assert(decimal(n).drop_last() =~= Seq::<char>::empty());
        assert(digits_value(decimal(n).drop_last()) == 0);
        assert(decimal(n).last() == digit_char(n as int));
    } else {
        let q = n / 10;
        let r = n % 10;
        lemma_decimal_reads_back(q);
        lemma_digit_char_ascii(r as int);
        let d = decimal(n);
        assert(d.drop_last() =~= decimal(q));
        assert forall|i: int| 0 <= i < d.len() implies ('0' as int) <= (#[trigger] d[i]) as int <= (
        '9' as int) by {
            if i < d.len() - 1 {
                assert(d[i] == decimal(q)[i]);
            }
        }
        assert(d[0] == decimal(q)[0]);
        assert(d.last() == digit_char(r as int));
        assert(digits_value(d) == digits_value(decimal(q)) * 10 + r);
        assert(q * 10 + r == n) by (nonlinear_arith)
            requires
                q == n / 10,
                r == n % 10,
        ;
    }
}

/// The text of one segment: `| P<pid> [<start>-<end>] `.
pub open spec fn segment_text(s: GanttSegment) -> Seq<char> {
    seq!['|', ' ', 'P'] + decimal(s.pid as nat) + seq![' ', '['] + decimal(s.start as nat) + seq![
        '-',
    ] + decimal(s.end as nat) + seq![']', ' ']
}

/// The text of the segments, one after another.
pub open spec fn segments_text(segs: Seq<GanttSegment>) -> Seq<char>
    decreases segs.len(),
{
    if segs.len() == 0 {
        Seq::empty()
    } else {
        segments_text(segs.drop_last()) + segment_text(segs.last())
    }
}

/// The text of a chart: its segments, then a closing `|`.
pub open spec fn chart_text(segs: Seq<GanttSegment>) -> Seq<char> {
    segments_text(segs).push('|')
}

fn digit_str(d: u32) -> (s: &'static str)
    requires
        d < 10,
    ensures
        s@ == seq![digit_char(d as int)],
{
    match d {
        0 => {
            proof {
                reveal_strlit("0");
            }
            "0"
        },
        1 => {
            proof {
                reveal_strlit("1");
            }
            "1"
        },
        2 => {
            proof {
                reveal_strlit("2");
            }
            "2"
        },
        3 => {
            proof {
                reveal_strlit("3");
            }
            "3"
        },
        4 => {
            proof {
                reveal_strlit("4");
            }
            "4"
        },
        5 => {
            proof {
                reveal_strlit("5");
            }
            "5"
        },
        6 => {
            proof {
                reveal_strlit("6");
            }
            "6"
        },
        7 => {
            proof {
                reveal_strlit("7");
            }
            "7"
        },
        8 => {
            proof {
                reveal_strlit("8");
            }
            "8"
        },
        _ => {
            proof {
                reveal_strlit("9");
            }
            "9"
        },
    }
}

/// Appends the decimal representation of `n`.
fn push_decimal(out: &mut String, n: u32)
    ensures
        final(out)@ == old(out)@ + decimal(n as nat),
    decreases n,
{
    if n >= 10 {
        push_decimal(out, n / 10);
    }
    out.append(digit_str(n % 10));
    assert(out@ =~= old(out)@ + decimal(n as nat));
}

impl GanttChart {
    /// Display as a text Gantt chart: `| P<pid> [<start>-<end>] ` for each
    /// segment, then `|`.
    pub fn display(&self) -> (text: String)
        ensures
            text@ == chart_text(self.segments@),
    {
        let mut result = String::new();
        let n = self.segments.len();
        let mut i: usize = 0;
        proof {
            reveal_strlit("| P");
            reveal_strlit(" [");
            reveal_strlit("-");
            reveal_strlit("] ");
            reveal_strlit("|");
        }
        while i < n
            invariant
                n == self.segments@.len(),
                i <= n,
                result@ == segments_text(self.segments@.take(i as int)),
                "| P"@ == seq!['|', ' ', 'P'],
                " ["@ == seq![' ', '['],
                "-"@ == seq!['-'],
                "] "@ == seq![']', ' '],
            decreases n - i,
        {
            let seg = self.segments[i];
            let ghost before = result@;
            result.append("| P");
            push_decimal(&mut result, seg.pid);
            result.append(" [");
            push_decimal(&mut result, seg.start);
            result.append("-");
            push_decimal(&mut result, seg.end);
            result.append("] ");
            proof {
                let pre = self.segments@.take(i + 1);
                assert(pre.drop_last() =~= self.segments@.take(i as int));
                assert(pre.last() == seg);
                assert(result@ =~= before + segment_text(seg));
            }
            i += 1;
        }
        result.append("|");
        proof {
            assert(self.segments@.take(n as int) =~= self.segments@);
            assert(result@ =~= chart_text(self.segments@));
        }
        result
    }
}

impl Default for GanttChart {
    fn default() -> (chart: Self)
        ensures
            chart.segments@ == Seq::<GanttSegment>::empty(),
    {
        Self::new()
    }
}

/// Scheduling metrics.
#[derive(Debug)]
pub struct ScheduleMetrics {
    pub completion_times: std::collections::HashMap<u32, u32>,
    pub first_run: std::collections::HashMap<u32, u32>,
}

/// For each pid in the chart, the end of its last segment.
pub open spec fn completion_map(segs: Seq<GanttSegment>) -> Map<u32, u32>
    decreases segs.len(),
{
    if segs.len() == 0 {
        Map::empty()
    } else {
        completion_map(segs.drop_last()).insert(segs.last().pid, segs.last().end)
    }
}

/// For each pid in the chart, the start of its first segment.
pub open spec fn first_run_map(segs: Seq<GanttSegment>) -> Map<u32, u32>
    decreases segs.len(),
{
    if segs.len() == 0 {
        Map::empty()
    } else {
        let m = first_run_map(segs.drop_last());
        if m.contains_key(segs.last().pid) {
            m
        } else {
            m.insert(segs.last().pid, segs.last().start)
        }
    }
}

impl GanttChart {
    /// Calculate metrics: completion time and first run per process.
    pub fn metrics(&self) -> (m: ScheduleMetrics)
        ensures
            m.completion_times@ == completion_map(self.segments@),
            m.first_run@ == first_run_map(self.segments@),
    {
        broadcast use vstd::std_specs::hash::group_hash_axioms;
        let mut completion_times: std::collections::HashMap<u32, u32> =
            std::collections::HashMap::new();
        let mut first_run: std::collections::HashMap<u32, u32> =
            std::collections::HashMap::new();
        let n = self.segments.len();
        let mut i: usize = 0;
        while i < n
            invariant
                n == self.segments@.len(),
                i <= n,
                completion_times@ == completion_map(self.segments@.take(i as int)),
                first_run@ == first_run_map(self.segments@.take(i as int)),
            decreases n - i,
        {
            let seg = self.segments[i];
            proof {
                assert(self.segments@.take(i + 1).drop_last() =~= self.segments@.take(i as int));
            }
            completion_times.insert(seg.pid, seg.end);
            if !first_run.contains_key(&seg.pid) {
                first_run.insert(seg.pid, seg.start);
            }
            i += 1;
        }
        proof {
            assert(self.segments@.take(n as int) =~= self.segments@);
        }
        ScheduleMetrics { completion_times, first_run }
    }
}

impl ScheduleMetrics {
    /// Turnaround time = completion - arrival.
    pub fn turnaround(&self, pid: u32, arrival: u32) -> (r: Option<u32>)
        requires
            self.completion_times@.contains_key(pid) ==> arrival <= self.completion_times@[pid],
        ensures
            r == (if self.completion_times@.contains_key(pid) {
                Some((self.completion_times@[pid] - arrival) as u32)
            } else {
                None
            }),
    {
        broadcast use vstd::std_specs::hash::group_hash_axioms;
        match self.completion_times.get(&pid) {
            Some(c) => Some(*c - arrival),
            None => None,
        }
    }

    /// Waiting time = turnaround - burst.
    pub fn waiting(&self, pid: u32, arrival: u32, burst: u32) -> (r: Option<u32>)
        requires
            self.completion_times@.contains_key(pid) ==> arrival + burst
                <= self.completion_times@[pid],
        ensures
            r == (if self.completion_times@.contains_key(pid) {
                Some((self.completion_times@[pid] - arrival - burst) as u32)
            } else {
                None
            }),
    {
        match self.turnaround(pid, arrival) {
            Some(t) => Some(t - burst),
            None => None,
        }
    }

    /// Response time = first_run - arrival.
    pub fn response(&self, pid: u32, arrival: u32) -> (r: Option<u32>)
        requires
            self.first_run@.contains_key(pid) ==> arrival <= self.first_run@[pid],
        ensures
            r == (if self.first_run@.contains_key(pid) {
                Some((self.first_run@[pid] - arrival) as u32)
            } else {
                None
            }),
    {
        broadcast use vstd::std_specs::hash::group_hash_axioms;
        match self.first_run.get(&pid) {
            Some(s) => Some(*s - arrival),
            None => None,
        }
    }
}

/// The segments follow one another in time: each ends no earlier than it
/// starts, and no earlier segment ends after a later one starts.
pub open spec fn chart_ordered(segs: Seq<GanttSegment>) -> bool {
    &&& forall|i: int| 0 <= i < segs.len() ==> (#[trigger] segs[i]).start <= segs[i].end
    &&& forall|i: int, j: int| 0 <= i < j < segs.len() ==> (#[trigger] segs[i]).end <= (#[trigger] segs[j]).start
}

/// The total time that `pid` runs in the chart.
pub open spec fn run_time(segs: Seq<GanttSegment>, pid: u32) -> int
    decreases segs.len(),
{
    if segs.len() == 0 {
        0
    } else {
        run_time(segs.drop_last(), pid) + if segs.last().pid == pid {
            segs.last().end - segs.last().start
        } else {
            0
        }
    }
}

/// The time that the CPU is busy in the chart: the sum of the segments' lengths.
pub open spec fn busy_time(segs: Seq<GanttSegment>) -> int
    decreases segs.len(),
{
    if segs.len() == 0 {
        0
    } else {
        busy_time(segs.drop_last()) + (segs.last().end - segs.last().start)
    }
}

/// Adding a segment makes its end the chart's total time.
pub proof fn lemma_add_total_time(segs: Seq<GanttSegment>, pid: u32, start: u32, end: u32)
    ensures
        chart_end(segs.push(GanttSegment { pid, start, end })) == end,
{
}

/// A pid has a completion time exactly when it has a segment, and the
/// completion time is the end of its last segment.
pub proof fn lemma_completion_map(segs: Seq<GanttSegment>, pid: u32)
    ensures
        completion_map(segs).contains_key(pid) <==> exists|k: int|
            0 <= k < segs.len() && (#[trigger] segs[k]).pid == pid,
        completion_map(segs).contains_key(pid) ==> exists|k: int|
            0 <= k < segs.len() && (#[trigger] segs[k]).pid == pid && completion_map(segs)[pid]
                == segs[k].end && forall|m: int| k < m < segs.len() ==> (#[trigger] segs[m]).pid != pid,
    decreases segs.len(),
{
    if segs.len() > 0 {
        let init = segs.drop_last();
        lemma_completion_map(init, pid);
        assert forall|m: int| 0 <= m < init.len() implies init[m] == segs[m] by {}
        if segs.last().pid == pid {
            assert(segs[segs.len() - 1].pid == pid);
        } else if completion_map(init).contains_key(pid) {
            let k = choose|k: int|
                0 <= k < init.len() && (#[trigger] init[k]).pid == pid && completion_map(init)[pid]
                    == init[k].end && forall|m: int| k < m < init.len() ==> (#[trigger] init[m]).pid != pid;
            assert(segs[k].pid == pid);
            assert forall|m: int| k < m < segs.len() implies (#[trigger] segs[m]).pid != pid by {
                if m < init.len() {
                    assert(init[m].pid != pid);
                }
            }
        } else {
            assert forall|k: int| 0 <= k < segs.len() implies (#[trigger] segs[k]).pid != pid by {
                if k < init.len() {
                    assert(init[k].pid != pid);
                }
            }
        }
    }
}

/// A pid has a first-run time exactly when it has a segment, and the
/// first-run time is the start of its first segment.
pub proof fn lemma_first_run_map(segs: Seq<GanttSegment>, pid: u32)
    ensures
        first_run_map(segs).contains_key(pid) <==> exists|k: int|
            0 <= k < segs.len() && (#[trigger] segs[k]).pid == pid,
        first_run_map(segs).contains_key(pid) ==> exists|k: int|
            0 <= k < segs.len() && (#[trigger] segs[k]).pid == pid && first_run_map(segs)[pid]
                == segs[k].start && forall|m: int| 0 <= m < k ==> (#[trigger] segs[m]).pid != pid,
    decreases segs.len(),
{
    if segs.len() > 0 {
        let init = segs.drop_last();
        lemma_first_run_map(init, pid);
        assert forall|m: int| 0 <= m < init.len() implies init[m] == segs[m] by {}
        if first_run_map(init).contains_key(pid) {
            let k = choose|k: int|
                0 <= k < init.len() && (#[trigger] init[k]).pid == pid && first_run_map(init)[pid]
                    == init[k].start && forall|m: int| 0 <= m < k ==> (#[trigger] init[m]).pid != pid;
            assert(segs[k].pid == pid);
        } else if segs.last().pid == pid {
            assert(segs[segs.len() - 1].pid == pid);
            assert forall|m: int| 0 <= m < segs.len() - 1 implies (#[trigger] segs[m]).pid != pid by {
                assert(init[m].pid != pid);
            }
        } else {
            assert forall|k: int| 0 <= k < segs.len() implies (#[trigger] segs[k]).pid != pid by {
                if k < init.len() {
                    assert(init[k].pid != pid);
                }
            }
        }
    }
}

/// A pid with a single segment completes at its end and first runs at its start.
pub proof fn lemma_single_segment_metrics(segs: Seq<GanttSegment>, k: int)
    requires
        0 <= k < segs.len(),
        forall|m: int| 0 <= m < segs.len() && m != k ==> (#[trigger] segs[m]).pid != segs[k].pid,
    ensures
        completion_map(segs).contains_key(segs[k].pid),
        completion_map(segs)[segs[k].pid] == segs[k].end,
        first_run_map(segs).contains_key(segs[k].pid),
        first_run_map(segs)[segs[k].pid] == segs[k].start,
{
    let pid = segs[k].pid;
    lemma_completion_map(segs, pid);
    lemma_first_run_map(segs, pid);
    assert(segs[k].pid == pid);
}

/// The turnaround time of `pid` arriving at `arrival`, or 0 when `pid` never ran.
pub open spec fn turnaround_or_zero(completion: Map<u32, u32>, pid: u32, arrival: u32) -> int {
    if completion.contains_key(pid) {
        completion[pid] - arrival
    } else {
        0
    }
}

/// The sum of the turnaround times of the (pid, arrival) pairs; a pid that
/// never ran counts 0.
pub open spec fn sum_turnaround(completion: Map<u32, u32>, arrivals: Seq<(u32, u32)>) -> int
    decreases arrivals.len(),
{
    if arrivals.len() == 0 {
        0
    } else {
        sum_turnaround(completion, arrivals.drop_last()) + turnaround_or_zero(
            completion,
            arrivals.last().0,
            arrivals.last().1,
        )
    }
}

/// The waiting time of `pid` arriving at `arrival` with burst `burst`, or 0
/// when `pid` never ran.
pub open spec fn waiting_or_zero(completion: Map<u32, u32>, pid: u32, arrival: u32, burst: u32) -> int {
    if completion.contains_key(pid) {
        completion[pid] - arrival - burst
    } else {
        0
    }
}

/// The sum of the waiting times of the (pid, arrival, burst) triples; a pid
/// that never ran counts 0.
pub open spec fn sum_waiting(completion: Map<u32, u32>, processes: Seq<(u32, u32, u32)>) -> int
    decreases processes.len(),
{
    if processes.len() == 0 {
        0
    } else {
        sum_waiting(completion, processes.drop_last()) + waiting_or_zero(
            completion,
            processes.last().0,
            processes.last().1,
            processes.last().2,
        )
    }
}

proof fn lemma_sum_turnaround_prefix(completion: Map<u32, u32>, a: Seq<(u32, u32)>, i: int)
    requires
        0 <= i < a.len(),
        arrivals_fit(completion, a),
    ensures
        sum_turnaround(completion, a.take(i + 1)) == sum_turnaround(completion, a.take(i))
            + turnaround_or_zero(completion, a[i].0, a[i].1),
        sum_turnaround(completion, a.take(i + 1)) <= sum_turnaround(completion, a),
    decreases a.len(),
{
    assert(a.take(i + 1).drop_last() =~= a.take(i));
    if i + 1 < a.len() {
        assert(a.drop_last().take(i + 1) =~= a.take(i + 1));
        lemma_sum_turnaround_prefix(completion, a.drop_last(), i);
        let l = a.last();
        assert(l == a[a.len() - 1]);
    } else {
        assert(a.take(i + 1) =~= a);
    }
}

proof fn lemma_sum_waiting_prefix(completion: Map<u32, u32>, a: Seq<(u32, u32, u32)>, i: int)
    requires
        0 <= i < a.len(),
        bursts_fit(completion, a),
    ensures
        sum_waiting(completion, a.take(i + 1)) == sum_waiting(completion, a.take(i))
            + waiting_or_zero(completion, a[i].0, a[i].1, a[i].2),
        sum_waiting(completion, a.take(i + 1)) <= sum_waiting(completion, a),
    decreases a.len(),
{
    assert(a.take(i + 1).drop_last() =~= a.take(i));
    if i + 1 < a.len() {
        assert(a.drop_last().take(i + 1) =~= a.take(i + 1));
        lemma_sum_waiting_prefix(completion, a.drop_last(), i);
        let l = a.last();
        assert(l == a[a.len() - 1]);
    } else {
        assert(a.take(i + 1) =~= a);
    }
}

/// Every listed pid that ran completed no earlier than its arrival.
pub open spec fn arrivals_fit(completion: Map<u32, u32>, arrivals: Seq<(u32, u32)>) -> bool {
    forall|m: int|
        0 <= m < arrivals.len() && completion.contains_key(#[trigger] arrivals[m].0) ==> arrivals[m].1
            <= completion[arrivals[m].0]
}

/// Every listed pid that ran completed no earlier than its arrival plus its burst.
pub open spec fn bursts_fit(completion: Map<u32, u32>, processes: Seq<(u32, u32, u32)>) -> bool {
    forall|m: int|
        0 <= m < processes.len() && completion.contains_key(#[trigger] processes[m].0)
            ==> processes[m].1 + processes[m].2 <= completion[processes[m].0]
}

impl ScheduleMetrics {
    /// Sum of the turnaround times of the (pid, arrival) pairs; a pid that
    /// never ran counts 0. The average turnaround time is this sum divided
    /// by the number of pairs. `None` when a listed pid completed before its
    /// arrival or the sum overflows `u32`.
    pub fn total_turnaround(&self, arrivals: &[(u32, u32)]) -> (total: Option<u32>)
        ensures
            total is Some <==> arrivals_fit(self.completion_times@, arrivals@) && sum_turnaround(
                self.completion_times@,
                arrivals@,
            ) <= u32::MAX,
            total matches Some(t) ==> t == sum_turnaround(self.completion_times@, arrivals@),
    {
        let ghost c = self.completion_times@;
        let n = arrivals.len();
        let mut total: u32 = 0;
        let mut i: usize = 0;
        while i < n
            invariant
                n == arrivals@.len(),
                i <= n,
                c == self.completion_times@,
                arrivals_fit(c, arrivals@.take(i as int)),
                total == sum_turnaround(c, arrivals@.take(i as int)),
            decreases n - i,
        {
            let (pid, arr) = arrivals[i];
            let ghost pre = arrivals@.take(i + 1);
            proof {
                assert(pre.drop_last() =~= arrivals@.take(i as int));
                assert(pre.last() == arrivals@[i as int]);
            }
            if self.completion_times.contains_key(&pid) && *self.completion_times.get(&pid).unwrap() < arr {
                proof {
                    assert(!arrivals_fit(c, arrivals@));
                }
                return None;
            }
            let t = match self.turnaround(pid, arr) {
                Some(t) => t,
                None => 0,
            };
            match total.checked_add(t) {
                Some(sum) => {
                    total = sum;
                },
                None => {
                    proof {
                        assert(arrivals_fit(c, pre));
                        if arrivals_fit(c, arrivals@) {
                            lemma_sum_turnaround_prefix(c, arrivals@, i as int);
                        }
                    }
                    return None;
                },
            }
            proof {
                assert(arrivals_fit(c, pre)) by {
                    assert forall|m: int|
                        0 <= m < pre.len() && c.contains_key(#[trigger] pre[m].0) implies pre[m].1
                        <= c[pre[m].0] by {
                        if m < i {
                            assert(pre[m] == arrivals@.take(i as int)[m]);
                        }
                    }
                }
            }
            i += 1;
        }
        proof {
            assert(arrivals@.take(n as int) =~= arrivals@);
        }
        Some(total)
    }

    /// Sum of the waiting times of the (pid, arrival, burst) triples; a pid
    /// that never ran counts 0. The average waiting time is this sum divided
    /// by the number of triples. `None` when a listed pid completed before
    /// its arrival plus its burst or the sum overflows `u32`.
    pub fn total_waiting(&self, processes: &[(u32, u32, u32)]) -> (total: Option<u32>)
        ensures
            total is Some <==> bursts_fit(self.completion_times@, processes@) && sum_waiting(
                self.completion_times@,
                processes@,
            ) <= u32::MAX,
            total matches Some(t) ==> t == sum_waiting(self.completion_times@, processes@),
    {
        let ghost c = self.completion_times@;
        let n = processes.len();
        let mut total: u32 = 0;
        let mut i: usize = 0;
        while i < n
            invariant
                n == processes@.len(),
                i <= n,
                c == self.completion_times@,
                bursts_fit(c, processes@.take(i as int)),
                total == sum_waiting(c, processes@.take(i as int)),
            decreases n - i,
        {
            let (pid, arr, burst) = processes[i];
            let ghost pre = processes@.take(i + 1);
            proof {
                assert(pre.drop_last() =~= processes@.take(i as int));
                assert(pre.last() == processes@[i as int]);
            }
            if self.completion_times.contains_key(&pid) {
                let c_pid = *self.completion_times.get(&pid).unwrap();
                if c_pid < arr || c_pid - arr < burst {
                    proof {
                        assert(!bursts_fit(c, processes@));
                    }
                    return None;
                }
            }
            let w = match self.waiting(pid, arr, burst) {
                Some(w) => w,
                None => 0,
            };
            match total.checked_add(w) {
                Some(sum) => {
                    total = sum;
                },
                None => {
                    proof {
                        assert(bursts_fit(c, pre));
                        if bursts_fit(c, processes@) {
                            lemma_sum_waiting_prefix(c, processes@, i as int);
                        }
                    }
                    return None;
                },
            }
            proof {
                assert(bursts_fit(c, pre)) by {
                    assert forall|m: int|
                        0 <= m < pre.len() && c.contains_key(#[trigger] pre[m].0) implies pre[m].1
                        + pre[m].2 <= c[pre[m].0] by {
                        if m < i {
                            assert(pre[m] == processes@.take(i as int)[m]);
                        }
                    }
                }
            }
            i += 1;
        }
        proof {
            assert(processes@.take(n as int) =~= processes@);
        }
        Some(total)
    }
}

} // verus!
