# ternary_scheduling

Priority scheduling in which every task carries a ternary signal:
prioritize (+1), defer (-1) or neutral (0). The library is written in Verus;
every function has a contract and is proved.

Layout of `src/`:

- `decision.rs`: the ternary signal and its weight.
- `task.rs`: tasks, effective priority, urgency, and laws on urgency.
- `sorting.rs`: stable sorting of indices by key, with uniqueness of the result.
- `plan.rs`: ordering by effective priority and earliest-deadline-first planning.
- `edf_optimality.rs`: proof that earliest deadline first meets every deadline whenever any order does.
- `deadline.rs`: the deadline-aware scheduler.
- `round_robin.rs`: the weighted round-robin dispatcher (3:2:1) and its fairness laws, including runs with tasks added between dispatches.
- `priority_queue.rs`: the priority queue with signal overrides applied at pop.
