# cpu-sched

CPU scheduling algorithm simulator: FCFS, SJF (non-preemptive), Round Robin
and Priority (preemptive and non-preemptive), with Gantt chart output and
per-process metrics. (No Multilevel Queue scheduler is provided.)

Each scheduler is described by a model of its simulation (spec functions in
its module); `CpuScheduler::schedule` is proved to return exactly the chart
of that model, on every input the model completes within `u32` time.

Layout:

- `src/lib.rs`: `Process`, the `CpuScheduler` trait, shared sums.
- `src/order.rs`: stable sort by (arrival time, pid).
- `src/permutation.rs`: processes with distinct pids, the same up to order.
- `src/fcfs.rs`, `src/sjf.rs`, `src/round_robin.rs`, `src/priority.rs`:
  the schedulers, their models, and the laws proved of them (each decision,
  ordering of the chart, quanta, arrivals, work conservation, independence
  from input order, conditions for completion).
- `src/gantt.rs`: the chart, its text form and metrics.
- `app/lib.rs`: floating-point averages over the metrics.
- `tests/`: the scenarios.
