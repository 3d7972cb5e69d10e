use vstd::prelude::*;

use crate::decision::TernaryDecision;
use crate::task::Task;

verus! {

/// The queue a signal sends a task to: 0 prioritize, 1 neutral, 2 defer.
pub open spec fn queue_of(s: TernaryDecision) -> int {
    match s {
        TernaryDecision::Prioritize => 0,
        TernaryDecision::Neutral => 1,
        TernaryDecision::Defer => 2,
    }
}

/// The dispatch cycle `[0, 0, 0, 1, 1, 2]`: the queue tried at cycle
/// position `i`.
pub open spec fn cycle_slot(i: int) -> int {
    let j = i % 6;
    if j < 3 {
        0
    } else if j < 5 {
        1
    } else {
        2
    }
}

/// The abstract state of a round-robin scheduler: its three queues, front
/// first, and its place in the dispatch cycle.
pub struct RoundRobinView {
    pub prioritize: Seq<Task>,
    pub neutral: Seq<Task>,
    pub defer: Seq<Task>,
    pub position: int,
}

impl RoundRobinView {
    /// A reachable state: the position is inside the cycle, and each queue
    /// holds only tasks whose signal names it.
    pub open spec fn wf(self) -> bool {
        &&& 0 <= self.position < 6
        &&& forall|q: int, i: int|
            0 <= q < 3 && 0 <= i < self.queue(q).len() ==> queue_of(
                (#[trigger] self.queue(q)[i]).ternary_signal,
            ) == q
    }

    /// Queue `k`: 0 prioritize, 1 neutral, 2 defer.
    pub open spec fn queue(self, k: int) -> Seq<Task> {
        if k == 0 {
            self.prioritize
        } else if k == 1 {
            self.neutral
        } else {
            self.defer
        }
    }

    /// The state with queue `k` replaced.
    pub open spec fn with_queue(self, k: int, q: Seq<Task>) -> RoundRobinView {
        if k == 0 {
            RoundRobinView { prioritize: q, ..self }
        } else if k == 1 {
            RoundRobinView { neutral: q, ..self }
        } else {
            RoundRobinView { defer: q, ..self }
        }
    }

    /// Total number of tasks.
    pub open spec fn len(self) -> nat {
        self.prioritize.len() + self.neutral.len() + self.defer.len()
    }

    /// Whether the queue at `k` steps ahead in the cycle has a task.
    pub open spec fn ready(self, k: int) -> bool {
        self.queue(cycle_slot(self.position + k)).len() > 0
    }

    /// The first number of steps ahead, from `k` on, at which the cycle
    /// meets a queue with a task; 6 when none within the cycle does.
    pub open spec fn first_ready_from(self, k: int) -> int
        decreases 6 - k,
    {
        if k >= 6 {
            6
        } else if self.ready(k) {
            k
        } else {
            self.first_ready_from(k + 1)
        }
    }

    /// The queue that the next dispatch serves.
    pub open spec fn served_queue(self) -> int {
        cycle_slot(self.position + self.first_ready_from(0))
    }

    /// One dispatch: walk the cycle from the current position to the first
    /// queue with a task, take its front task and move past that slot. With
    /// every queue empty, nothing is taken and the position stays.
    pub open spec fn next_state(self) -> (RoundRobinView, Option<Task>) {
        let k = self.first_ready_from(0);
        if k >= 6 {
            (self, None)
        } else {
            let q = cycle_slot(self.position + k);
            (
                RoundRobinView {
                    position: (self.position + k + 1) % 6,
                    ..self.with_queue(q, self.queue(q).drop_first())
                },
                Some(self.queue(q)[0]),
            )
        }
    }

    /// The state after adding a task: it joins the back of the queue its
    /// signal names.
    pub open spec fn add_state(self, task: Task) -> RoundRobinView {
        let q = queue_of(task.ternary_signal);
        self.with_queue(q, self.queue(q).push(task))
    }

    /// The states reached by `n` dispatches in a row.
    pub open spec fn after_dispatches(self, n: nat) -> RoundRobinView
        decreases n,
    {
        if n == 0 {
            self
        } else {
            self.next_state().0.after_dispatches((n - 1) as nat)
        }
    }

    /// The tasks returned by `n` dispatches in a row.
    pub open spec fn dispatched(self, n: nat) -> Seq<Option<Task>>
        decreases n,
    {
        if n == 0 {
            Seq::empty()
        } else {
            seq![self.next_state().1] + self.next_state().0.dispatched((n - 1) as nat)
        }
    }

    /// The state after adding the tasks `ts`, in order.
    pub open spec fn add_all(self, ts: Seq<Task>) -> RoundRobinView
        decreases ts.len(),
    {
        if ts.len() == 0 {
            self
        } else {
            self.add_all(ts.drop_last()).add_state(ts.last())
        }
    }

    /// The state before dispatch `i` of a run in which, before each dispatch
    /// `j`, the tasks `batches[j]` are added.
    pub open spec fn state_after(self, batches: Seq<Seq<Task>>, i: nat) -> RoundRobinView
        decreases i,
    {
        if i == 0 {
            self
        } else {
            self.add_all(batches[0]).next_state().0.state_after(batches.drop_first(), (i - 1) as nat)
        }
    }

    /// What dispatch `i` returns in a run in which, before each dispatch `j`,
    /// the tasks `batches[j]` are added.
    pub open spec fn result_at(self, batches: Seq<Seq<Task>>, i: nat) -> Option<Task> {
        self.state_after(batches, i).add_all(batches[i as int]).next_state().1
    }

    /// The queues served by `n` dispatches in a row.
    pub open spec fn served_queues(self, n: nat) -> Seq<int>
        decreases n,
    {
        if n == 0 {
            Seq::empty()
        } else {
            seq![self.served_queue()] + self.next_state().0.served_queues((n - 1) as nat)
        }
    }
}

/// Every queue comes up within one turn of the cycle: when none of the six
/// slots from some position has a task, the scheduler is empty.
proof fn lemma_cycle_meets_every_queue(v: RoundRobinView)
    requires
        0 <= v.position < 6,
        forall|j: int| 0 <= j < 6 ==> !v.ready(j),
    ensures
        v.len() == 0,
{
    assert(!v.ready(0) && !v.ready(1) && !v.ready(2) && !v.ready(3) && !v.ready(4) && !v.ready(5));
    assert(v.prioritize.len() == 0 && v.neutral.len() == 0 && v.defer.len() == 0) by {
        if v.position == 0 {
        } else if v.position == 1 {
        } else if v.position == 2 {
        } else if v.position == 3 {
        } else if v.position == 4 {
        } else {
        }
    }
}

/// The cycle repeats every six positions.
pub proof fn lemma_cycle_slot_period(x: int)
    ensures
        cycle_slot(x + 6) == cycle_slot(x),
{
    assert((x + 6) % 6 == x % 6) by (nonlinear_arith);
}

/// How many of the `n` cycle slots from position `p` on belong to queue `q`.
pub open spec fn count_slots(p: int, n: nat, q: int) -> nat
    decreases n,
{
    if n == 0 {
        0
    } else {
        (if cycle_slot(p) == q {
            1nat
        } else {
            0nat
        }) + count_slots(p + 1, (n - 1) as nat, q)
    }
}

/// How many times `q` occurs in `s`.
pub open spec fn times_served(s: Seq<int>, q: int) -> nat
    decreases s.len(),
{
    if s.len() == 0 {
        0
    } else {
        times_served(s.drop_last(), q) + (if s.last() == q {
            1nat
        } else {
            0nat
        })
    }
}

/// The weight of a queue in the dispatch cycle: 3, 2 and 1.
pub open spec fn queue_weight(q: int) -> nat {
    if q == 0 {
        3
    } else if q == 1 {
        2
    } else {
        1
    }
}

/// `first_ready_from` finds the first slot at or after `k` whose queue has a
/// task, or 6 when there is none.
pub proof fn lemma_first_ready(v: RoundRobinView, k: int)
    requires
        0 <= k <= 6,
    ensures
        k <= v.first_ready_from(k) <= 6,
        v.first_ready_from(k) < 6 ==> v.ready(v.first_ready_from(k)),
        forall|j: int| k <= j < v.first_ready_from(k) ==> !v.ready(j),
    decreases 6 - k,
{
    if k < 6 && !v.ready(k) {
        lemma_first_ready(v, k + 1);
    }
}

/// A dispatch returns nothing exactly when the scheduler is empty, and
/// otherwise takes out one task.
pub proof fn lemma_dispatch_takes_one(v: RoundRobinView)
    requires
        0 <= v.position < 6,
    ensures
        v.next_state().1 is None <==> v.len() == 0,
        v.next_state().1 is Some ==> v.next_state().0.len() == v.len() - 1,
        0 <= v.next_state().0.position < 6,
{
    lemma_first_ready(v, 0);
    if v.first_ready_from(0) >= 6 {
        lemma_cycle_meets_every_queue(v);
    } else {
        let q = v.served_queue();
        assert(v.ready(v.first_ready_from(0)));
        assert(0 <= q < 3);
    }
}

/// Adding a task puts it at the back of the queue its signal names and
/// leaves the other queues and the position alone.
pub proof fn lemma_add_joins_signal_queue(v: RoundRobinView, t: Task)
    ensures
        v.add_state(t).position == v.position,
        t.ternary_signal == TernaryDecision::Prioritize ==> v.add_state(t).prioritize
            == v.prioritize.push(t) && v.add_state(t).neutral == v.neutral && v.add_state(t).defer
            == v.defer,
        t.ternary_signal == TernaryDecision::Neutral ==> v.add_state(t).neutral == v.neutral.push(t)
            && v.add_state(t).prioritize == v.prioritize && v.add_state(t).defer == v.defer,
        t.ternary_signal == TernaryDecision::Defer ==> v.add_state(t).defer == v.defer.push(t)
            && v.add_state(t).prioritize == v.prioritize && v.add_state(t).neutral == v.neutral,
{
}

/// The dispatch cycle, slot by slot: three prioritize slots, two neutral,
/// one defer, repeating every six positions.
pub proof fn lemma_cycle_layout(i: int)
    ensures
        0 <= i % 6 < 3 ==> cycle_slot(i) == 0,
        3 <= i % 6 < 5 ==> cycle_slot(i) == 1,
        i % 6 == 5 ==> cycle_slot(i) == 2,
{
}

/// A dispatch walks the cycle: from the current position it passes the
/// slots whose queues are empty, takes the front task of the first slot
/// whose queue holds one, and leaves the position just after that slot,
/// `k + 1` steps on; the other queues keep their tasks.
pub proof fn lemma_dispatch_walks_cycle(v: RoundRobinView, k: int)
    requires
        0 <= v.position < 6,
        0 <= k < 6,
        v.queue(cycle_slot(v.position + k)).len() > 0,
        forall|j: int| 0 <= j < k ==> (#[trigger] v.queue(cycle_slot(v.position + j))).len() == 0,
    ensures
        v.next_state().1 == Some(v.queue(cycle_slot(v.position + k))[0]),
        v.next_state().0.position == (v.position + k + 1) % 6,
        v.next_state().0.queue(cycle_slot(v.position + k)) == v.queue(
            cycle_slot(v.position + k),
        ).drop_first(),
        forall|p: int|
            0 <= p < 3 && p != cycle_slot(v.position + k) ==> #[trigger] v.next_state().0.queue(p)
                == v.queue(p),
{
    lemma_first_ready(v, 0);
    assert(v.ready(k));
    let r = v.first_ready_from(0);
    assert(r <= k);
    if r < k {
        assert(v.ready(r));
        assert(v.queue(cycle_slot(v.position + r)).len() == 0);
    }
    assert(r == k);
}

/// On a fresh scheduler the first dispatch serves the prioritize queue,
/// if it holds a task.
pub proof fn lemma_fresh_prioritize_first(v: RoundRobinView)
    requires
        v.position == 0,
        v.prioritize.len() > 0,
    ensures
        v.next_state().1 == Some(v.prioritize[0]),
{
    assert(v.ready(0));
}

/// Shifting a window of the cycle by a full turn does not change its counts.
proof fn lemma_count_slots_period(p: int, n: nat, q: int)
    ensures
        count_slots(p + 6, n, q) == count_slots(p, n, q),
    decreases n,
{
    lemma_cycle_slot_period(p);
    if n > 0 {
        lemma_count_slots_period(p + 1, (n - 1) as nat, q);
    }
}

/// `served_queues` lists one queue per dispatch, and a shorter run of
/// dispatches lists a prefix of a longer one.
proof fn lemma_served_prefix(v: RoundRobinView, n: nat, m: nat)
    requires
        m <= n,
    ensures
        v.served_queues(n).len() == n,
        forall|i: int| 0 <= i < m ==> v.served_queues(n)[i] == v.served_queues(m)[i],
    decreases n,
{
    if n > 0 {
        let w = v.next_state().0;
        if m > 0 {
            lemma_served_prefix(w, (n - 1) as nat, (m - 1) as nat);
            lemma_served_prefix(w, (m - 1) as nat, (m - 1) as nat);
            assert forall|i: int| 0 <= i < m implies v.served_queues(n)[i] == v.served_queues(
                m,
            )[i] by {
                if i > 0 {
                    assert(v.served_queues(n)[i] == w.served_queues((n - 1) as nat)[i - 1]);
                    assert(v.served_queues(m)[i] == w.served_queues((m - 1) as nat)[i - 1]);
                }
            }
        } else {
            lemma_served_prefix(w, (n - 1) as nat, 0);
        }
    }
}

/// While every queue holds at least as many tasks as the cycle asks of it,
/// the dispatches follow the cycle slot by slot.
pub proof fn lemma_served_when_stocked(v: RoundRobinView, n: nat)
    requires
        0 <= v.position < 6,
        forall|q: int| 0 <= q < 3 ==> v.queue(q).len() >= #[trigger] count_slots(v.position, n, q),
    ensures
        v.served_queues(n).len() == n,
        forall|i: int| 0 <= i < n ==> v.served_queues(n)[i] == cycle_slot(v.position + i),
    decreases n,
{
    lemma_served_prefix(v, n, n);
    if n > 0 {
        let q0 = cycle_slot(v.position);
        assert(count_slots(v.position, n, q0) >= 1);
        assert(v.ready(0));
        assert(v.first_ready_from(0) == 0);
        let w = v.next_state().0;
        assert(w.position == (v.position + 1) % 6);
        assert forall|q: int| 0 <= q < 3 implies w.queue(q).len() >= #[trigger] count_slots(
            w.position,
            (n - 1) as nat,
            q,
        ) by {
            assert(count_slots(v.position, n, q) == (if q0 == q {
                1nat
            } else {
                0nat
            }) + count_slots(v.position + 1, (n - 1) as nat, q));
            if v.position == 5 {
                lemma_count_slots_period(0, (n - 1) as nat, q);
            }
        }
        lemma_served_when_stocked(w, (n - 1) as nat);
        assert forall|i: int| 0 <= i < n implies v.served_queues(n)[i] == cycle_slot(
            v.position + i,
        ) by {
            if i > 0 {
                assert(v.served_queues(n)[i] == w.served_queues((n - 1) as nat)[i - 1]);
                if v.position == 5 {
                    lemma_cycle_slot_period(i - 1);
                }
            }
        }
    }
}

/// The weights of the cycle: from any position, the next six slots give the
/// prioritize queue three turns, the neutral queue two and the defer queue
/// one.
pub proof fn lemma_cycle_weights(p: int, q: int)
    requires
        0 <= p < 6,
        0 <= q < 3,
    ensures
        count_slots(p, 6, q) == queue_weight(q),
{
    reveal_with_fuel(count_slots, 7);
}

/// Weighted round robin: while the queues hold at least three, two and one
/// tasks, six dispatches in a row serve the prioritize queue three times,
/// the neutral queue twice and the defer queue once.
pub proof fn lemma_weighted_dispatch(v: RoundRobinView, q: int)
    requires
        0 <= v.position < 6,
        0 <= q < 3,
        v.prioritize.len() >= 3,
        v.neutral.len() >= 2,
        v.defer.len() >= 1,
    ensures
        times_served(v.served_queues(6), q) == queue_weight(q),
{
    assert forall|r: int| 0 <= r < 3 implies v.queue(r).len() >= #[trigger] count_slots(
        v.position,
        6,
        r,
    ) by {
        lemma_cycle_weights(v.position, r);
    }
    lemma_served_when_stocked(v, 6);
    let s = v.served_queues(6);
    let c = Seq::new(6, |i: int| cycle_slot(v.position + i));
    assert(s =~= c);
    reveal_with_fuel(times_served, 7);
    reveal_with_fuel(count_slots, 7);
    assert(c.drop_last().drop_last().drop_last().drop_last().drop_last().drop_last() =~= Seq::<
        int,
    >::empty());
    if v.position == 0 {
        assert(c =~= seq![0int, 0, 0, 1, 1, 2]);
    } else if v.position == 1 {
        assert(c =~= seq![0int, 0, 1, 1, 2, 0]);
    } else if v.position == 2 {
        assert(c =~= seq![0int, 1, 1, 2, 0, 0]);
    } else if v.position == 3 {
        assert(c =~= seq![1int, 1, 2, 0, 0, 0]);
    } else if v.position == 4 {
        assert(c =~= seq![1int, 2, 0, 0, 0, 1]);
    } else {
        assert(c =~= seq![2int, 0, 0, 0, 1, 1]);
    }
}

/// A queue that holds a task and whose slot comes up `d` steps ahead is
/// served within the next `d + 1` dispatches.
proof fn lemma_served_within(v: RoundRobinView, q: int, d: int)
    requires
        0 <= v.position < 6,
        0 <= q < 3,
        v.queue(q).len() > 0,
        0 <= d < 6,
        cycle_slot(v.position + d) == q,
    ensures
        exists|i: int| 0 <= i <= d && #[trigger] v.served_queues((d + 1) as nat)[i] == q,
    decreases d,
{
    lemma_first_ready(v, 0);
    let k = v.first_ready_from(0);
    assert(v.ready(d));
    assert(k <= d);
    lemma_served_prefix(v, (d + 1) as nat, (d + 1) as nat);
    if cycle_slot(v.position + k) == q {
        assert(v.served_queues((d + 1) as nat)[0] == q);
    } else {
        let w = v.next_state().0;
        let d2 = d - k - 1;
        assert(w.queue(q) == v.queue(q));
        if v.position + k + 1 >= 6 {
            lemma_cycle_slot_period(v.position + d - 6);
        }
        assert(cycle_slot(w.position + d2) == q);
        lemma_served_within(w, q, d2);
        let i2 = choose|i: int| 0 <= i <= d2 && #[trigger] w.served_queues((d2 + 1) as nat)[i] == q;
        lemma_served_prefix(w, d as nat, (d2 + 1) as nat);
        assert(v.served_queues((d + 1) as nat)[i2 + 1] == w.served_queues(d as nat)[i2]);
    }
}

/// The number of steps from position `p` to the next slot of queue `q`.
pub open spec fn steps_to_slot(p: int, q: int) -> int {
    if q == 0 {
        if p < 3 {
            0
        } else {
            6 - p
        }
    } else if q == 1 {
        if p < 3 {
            3 - p
        } else if p < 5 {
            0
        } else {
            4
        }
    } else {
        5 - p
    }
}

/// No queue starves: a queue that holds a task is served within the next
/// six dispatches, however full the other queues are.
pub proof fn lemma_no_queue_starves(v: RoundRobinView, q: int)
    requires
        0 <= v.position < 6,
        0 <= q < 3,
        v.queue(q).len() > 0,
    ensures
        exists|i: int| 0 <= i < 6 && #[trigger] v.served_queues(6)[i] == q,
{
    let d = steps_to_slot(v.position, q);
    assert(0 <= d < 6 && cycle_slot(v.position + d) == q);
    lemma_served_within(v, q, d);
    let i = choose|i: int| 0 <= i <= d && #[trigger] v.served_queues((d + 1) as nat)[i] == q;
    lemma_served_prefix(v, 6, (d + 1) as nat);
    assert(v.served_queues(6)[i] == q);
}

/// Adding a task keeps a state reachable.
pub proof fn lemma_add_keeps_wf(v: RoundRobinView, t: Task)
    requires
        v.wf(),
    ensures
        v.add_state(t).wf(),
        v.add_state(t).position == v.position,
{
    let w = v.add_state(t);
    let qt = queue_of(t.ternary_signal);
    assert forall|q: int, i: int| 0 <= q < 3 && 0 <= i < w.queue(q).len() implies queue_of(
        (#[trigger] w.queue(q)[i]).ternary_signal,
    ) == q by {
        if q == qt && i == v.queue(q).len() {
            assert(w.queue(q)[i] == t);
        } else {
            assert(w.queue(q)[i] == v.queue(q)[i]);
        }
    }
}

/// A dispatch keeps a state reachable.
pub proof fn lemma_dispatch_keeps_wf(v: RoundRobinView)
    requires
        v.wf(),
    ensures
        v.next_state().0.wf(),
{
    lemma_first_ready(v, 0);
    let w = v.next_state().0;
    if v.first_ready_from(0) < 6 {
        let qs = v.served_queue();
        assert forall|q: int, i: int| 0 <= q < 3 && 0 <= i < w.queue(q).len() implies queue_of(
            (#[trigger] w.queue(q)[i]).ternary_signal,
        ) == q by {
            if q == qs {
                assert(w.queue(q)[i] == v.queue(q)[i + 1]);
            } else {
                assert(w.queue(q)[i] == v.queue(q)[i]);
            }
        }
    }
}

/// The signal whose tasks queue `q` holds.
pub open spec fn signal_of_queue(q: int) -> TernaryDecision {
    if q == 0 {
        TernaryDecision::Prioritize
    } else if q == 1 {
        TernaryDecision::Neutral
    } else {
        TernaryDecision::Defer
    }
}

/// A dispatch returned a task with signal `s`.
pub open spec fn returned_with(r: Option<Task>, s: TernaryDecision) -> bool {
    match r {
        Some(t) => t.ternary_signal == s,
        None => false,
    }
}

/// How many of the results are tasks with signal `s`.
pub open spec fn signal_count(rs: Seq<Option<Task>>, s: TernaryDecision) -> nat
    decreases rs.len(),
{
    if rs.len() == 0 {
        0
    } else {
        signal_count(rs.drop_last(), s) + (if returned_with(rs.last(), s) {
            1nat
        } else {
            0nat
        })
    }
}

/// `s` begins with `p`.
pub open spec fn extends(s: Seq<Task>, p: Seq<Task>) -> bool {
    p.len() <= s.len() && forall|i: int| 0 <= i < p.len() ==> #[trigger] s[i] == p[i]
}

/// From a reachable state with at least `n` tasks, each of `n` dispatches
/// returns a task, taken from the queue it serves.
proof fn lemma_dispatched_follow_served(v: RoundRobinView, n: nat)
    requires
        v.wf(),
        v.len() >= n,
    ensures
        v.dispatched(n).len() == n,
        forall|i: int|
            0 <= i < n ==> (#[trigger] v.dispatched(n)[i]) is Some && queue_of(
                v.dispatched(n)[i]->0.ternary_signal,
            ) == v.served_queues(n)[i],
    decreases n,
{
    lemma_served_prefix(v, n, n);
    if n > 0 {
        lemma_dispatch_takes_one(v);
        lemma_dispatch_keeps_wf(v);
        lemma_first_ready(v, 0);
        let w = v.next_state().0;
        lemma_dispatched_follow_served(w, (n - 1) as nat);
        let q = v.served_queue();
        assert(v.ready(v.first_ready_from(0)));
        assert(0 <= q < 3);
        assert(queue_of(v.queue(q)[0].ternary_signal) == q);
        assert forall|i: int| 0 <= i < n implies (#[trigger] v.dispatched(n)[i]) is Some && queue_of(
            v.dispatched(n)[i]->0.ternary_signal,
        ) == v.served_queues(n)[i] by {
            if i > 0 {
                assert(v.dispatched(n)[i] == w.dispatched((n - 1) as nat)[i - 1]);
                assert(v.served_queues(n)[i] == w.served_queues((n - 1) as nat)[i - 1]);
            }
        }
    }
}

/// Counting results by signal is counting served queues by queue.
proof fn lemma_signal_count_by_queue(rs: Seq<Option<Task>>, qs: Seq<int>, s: TernaryDecision)
    requires
        rs.len() == qs.len(),
        forall|i: int|
            0 <= i < rs.len() ==> (#[trigger] rs[i]) is Some && queue_of(rs[i]->0.ternary_signal)
                == qs[i],
    ensures
        signal_count(rs, s) == times_served(qs, queue_of(s)),
    decreases rs.len(),
{
    if rs.len() > 0 {
        let n = rs.len() - 1;
        assert(rs[n] is Some);
        lemma_signal_count_by_queue(rs.drop_last(), qs.drop_last(), s);
    }
}

/// Weighted round robin, in the tasks returned: from a reachable state whose
/// queues hold at least three prioritize, two neutral and one defer task,
/// each of the next six dispatches returns a task, with the signal of the
/// cycle slot it serves, and three of them carry Prioritize, two Neutral and
/// one Defer.
pub proof fn lemma_weighted_dispatch_signals(v: RoundRobinView, s: TernaryDecision)
    requires
        v.wf(),
        v.prioritize.len() >= 3,
        v.neutral.len() >= 2,
        v.defer.len() >= 1,
    ensures
        forall|i: int|
            0 <= i < 6 ==> (#[trigger] v.dispatched(6)[i]) is Some && v.dispatched(6)[i]->0.ternary_signal
                == signal_of_queue(cycle_slot(v.position + i)),
        signal_count(v.dispatched(6), s) == queue_weight(queue_of(s)),
{
    assert forall|r: int| 0 <= r < 3 implies v.queue(r).len() >= #[trigger] count_slots(
        v.position,
        6,
        r,
    ) by {
        lemma_cycle_weights(v.position, r);
    }
    lemma_served_when_stocked(v, 6);
    lemma_dispatched_follow_served(v, 6);
    lemma_signal_count_by_queue(v.dispatched(6), v.served_queues(6), s);
    lemma_weighted_dispatch(v, queue_of(s));
    assert forall|i: int| 0 <= i < 6 implies (#[trigger] v.dispatched(6)[i]) is Some
        && v.dispatched(6)[i]->0.ternary_signal == signal_of_queue(cycle_slot(v.position + i)) by {
        assert(v.served_queues(6)[i] == cycle_slot(v.position + i));
    }
}

/// A scheduler built by `new` and `add` alone, with at least three
/// prioritize, two neutral and one defer task, hands out its next six tasks
/// with the signals Prioritize, Prioritize, Prioritize, Neutral, Neutral,
/// Defer.
pub proof fn lemma_fresh_dispatch_order(v: RoundRobinView)
    requires
        v.wf(),
        v.position == 0,
        v.prioritize.len() >= 3,
        v.neutral.len() >= 2,
        v.defer.len() >= 1,
    ensures
        forall|i: int|
            0 <= i < 6 ==> (#[trigger] v.dispatched(6)[i]) is Some && v.dispatched(6)[i]->0.ternary_signal
                == seq![
                TernaryDecision::Prioritize,
                TernaryDecision::Prioritize,
                TernaryDecision::Prioritize,
                TernaryDecision::Neutral,
                TernaryDecision::Neutral,
                TernaryDecision::Defer,
            ][i],
{
    lemma_weighted_dispatch_signals(v, TernaryDecision::Prioritize);
}

/// Adding tasks keeps the position, keeps a state reachable, and only
/// appends to each queue.
pub proof fn lemma_add_all(v: RoundRobinView, ts: Seq<Task>)
    requires
        v.wf(),
    ensures
        v.add_all(ts).wf(),
        v.add_all(ts).position == v.position,
        forall|q: int| 0 <= q < 3 ==> extends(#[trigger] v.add_all(ts).queue(q), v.queue(q)),
    decreases ts.len(),
{
    if ts.len() > 0 {
        lemma_add_all(v, ts.drop_last());
        let u = v.add_all(ts.drop_last());
        lemma_add_keeps_wf(u, ts.last());
        assert forall|q: int| 0 <= q < 3 implies extends(#[trigger] v.add_all(ts).queue(q), v.queue(q)) by {
            assert(extends(u.queue(q), v.queue(q)));
            let w = v.add_all(ts);
            assert forall|i: int| 0 <= i < v.queue(q).len() implies #[trigger] w.queue(q)[i] == v.queue(q)[i] by {
                assert(u.queue(q)[i] == v.queue(q)[i]);
            }
        }
    }
}

/// A run with adds splits at dispatch `m`: the rest of the run continues
/// from the state reached there, with the remaining batches.
pub proof fn lemma_run_split(v: RoundRobinView, b: Seq<Seq<Task>>, m: nat, n: nat)
    requires
        m + n < b.len(),
    ensures
        v.state_after(b, m + n) == v.state_after(b, m).state_after(b.skip(m as int), n),
        v.result_at(b, m + n) == v.state_after(b, m).result_at(b.skip(m as int), n),
    decreases m,
{
    if m == 0 {
        assert(b.skip(0) =~= b);
    } else {
        let w = v.add_all(b[0]).next_state().0;
        let b1 = b.drop_first();
        lemma_run_split(w, b1, (m - 1) as nat, n);
        assert(b1.skip(m - 1) =~= b.skip(m as int));
        assert((m + n - 1) as nat == (m - 1) as nat + n);
        assert(b1[(m - 1 + n) as int] == b[(m + n) as int]);
    }
}

/// With adds between dispatches, the front task of a queue whose slot comes
/// up `d` steps ahead is returned within `d + 1` dispatches; afterwards the
/// queue begins with the tasks that were behind it.
proof fn lemma_front_served_within(v: RoundRobinView, b: Seq<Seq<Task>>, c: int, d: int)
    requires
        v.wf(),
        0 <= c < 3,
        v.queue(c).len() > 0,
        0 <= d < 6,
        cycle_slot(v.position + d) == c,
        b.len() > d,
    ensures
        exists|i: int|
            0 <= i <= d && #[trigger] v.result_at(b, i as nat) == Some(v.queue(c)[0])
                && v.state_after(b, (i + 1) as nat).wf() && extends(
                v.state_after(b, (i + 1) as nat).queue(c),
                v.queue(c).drop_first(),
            ),
    decreases d,
{
    lemma_add_all(v, b[0]);
    let u = v.add_all(b[0]);
    assert(extends(u.queue(c), v.queue(c)));
    assert(u.queue(c)[0] == v.queue(c)[0]);
    lemma_first_ready(u, 0);
    let k = u.first_ready_from(0);
    assert(u.ready(d));
    assert(k <= d);
    lemma_dispatch_keeps_wf(u);
    let w = u.next_state().0;
    let b1 = b.drop_first();
    assert(v.state_after(b, 0) == v);
    assert(v.result_at(b, 0) == u.next_state().1);
    assert(v.state_after(b, 1) == w.state_after(b1, 0));
    if cycle_slot(u.position + k) == c {
        assert(v.result_at(b, 0) == Some(v.queue(c)[0]));
        assert(extends(v.state_after(b, 1).queue(c), v.queue(c).drop_first())) by {
            assert forall|i: int| 0 <= i < v.queue(c).drop_first().len() implies #[trigger] w.queue(c)[i]
                == v.queue(c).drop_first()[i] by {
                assert(w.queue(c)[i] == u.queue(c)[i + 1]);
                assert(u.queue(c)[i + 1] == v.queue(c)[i + 1]);
            }
        }
    } else {
        assert(k < d);
        let d2 = d - k - 1;
        assert(w.queue(c) == u.queue(c));
        if u.position + k + 1 >= 6 {
            lemma_cycle_slot_period(v.position + d - 6);
        }
        assert(cycle_slot(w.position + d2) == c);
        lemma_front_served_within(w, b1, c, d2);
        let i2 = choose|i: int|
            0 <= i <= d2 && #[trigger] w.result_at(b1, i as nat) == Some(w.queue(c)[0])
                && w.state_after(b1, (i + 1) as nat).wf() && extends(
                w.state_after(b1, (i + 1) as nat).queue(c),
                w.queue(c).drop_first(),
            );
        assert(v.state_after(b, (i2 + 1) as nat) == w.state_after(b1, i2 as nat));
        assert(b[i2 + 1] == b1[i2]);
        assert(v.result_at(b, (i2 + 1) as nat) == w.result_at(b1, i2 as nat));
        assert(v.state_after(b, (i2 + 2) as nat) == w.state_after(b1, (i2 + 1) as nat));
        let z = w.state_after(b1, (i2 + 1) as nat);
        assert(extends(z.queue(c), v.queue(c).drop_first())) by {
            assert forall|i: int| 0 <= i < v.queue(c).drop_first().len() implies #[trigger] z.queue(c)[i]
                == v.queue(c).drop_first()[i] by {
                assert(z.queue(c)[i] == w.queue(c).drop_first()[i]);
                assert(w.queue(c)[i + 1] == v.queue(c)[i + 1]);
            }
        }
        assert(v.result_at(b, (i2 + 1) as nat) == Some(v.queue(c)[0]));
    }
}

/// No task starves, even with tasks added between dispatches: the task at
/// place `j` (from 0) of a queue is returned within the next `6 * (j + 1)`
/// dispatches, whatever is added before each of them.
pub proof fn lemma_queued_task_served_within(
    v: RoundRobinView,
    b: Seq<Seq<Task>>,
    c: int,
    j: nat,
)
    requires
        v.wf(),
        0 <= c < 3,
        j < v.queue(c).len(),
        b.len() >= 6 * (j + 1),
    ensures
        exists|i: int| 0 <= i < 6 * (j + 1) && #[trigger] v.result_at(b, i as nat) == Some(v.queue(c)[j as int]),
    decreases j,
{
    let d = steps_to_slot(v.position, c);
    assert(0 <= d < 6 && cycle_slot(v.position + d) == c);
    lemma_front_served_within(v, b, c, d);
    let i0 = choose|i: int|
        0 <= i <= d && #[trigger] v.result_at(b, i as nat) == Some(v.queue(c)[0])
            && v.state_after(b, (i + 1) as nat).wf() && extends(
            v.state_after(b, (i + 1) as nat).queue(c),
            v.queue(c).drop_first(),
        );
    if j > 0 {
        let s1 = v.state_after(b, (i0 + 1) as nat);
        let b1 = b.skip(i0 + 1);
        assert(s1.queue(c)[j - 1] == v.queue(c).drop_first()[j - 1]);
        lemma_queued_task_served_within(s1, b1, c, (j - 1) as nat);
        let i1 = choose|i: int|
            0 <= i < 6 * j && #[trigger] s1.result_at(b1, i as nat) == Some(s1.queue(c)[j - 1]);
        lemma_run_split(v, b, (i0 + 1) as nat, i1 as nat);
        assert(v.result_at(b, (i0 + 1 + i1) as nat) == Some(v.queue(c)[j as int]));
    }
}

/// No signal starves, even with tasks added between dispatches: while some
/// queued task carries signal `s`, one of the next six dispatches returns a
/// task with signal `s`.
pub proof fn lemma_no_signal_starves(v: RoundRobinView, b: Seq<Seq<Task>>, s: TernaryDecision)
    requires
        v.wf(),
        v.queue(queue_of(s)).len() > 0,
        b.len() >= 6,
    ensures
        exists|i: int| 0 <= i < 6 && returned_with(#[trigger] v.result_at(b, i as nat), s),
{
    lemma_queued_task_served_within(v, b, queue_of(s), 0);
    let i = choose|i: int|
        0 <= i < 6 && #[trigger] v.result_at(b, i as nat) == Some(v.queue(queue_of(s))[0]);
    assert(queue_of(v.queue(queue_of(s))[0].ternary_signal) == queue_of(s));
    assert(returned_with(v.result_at(b, i as nat), s));
}

/// Round-robin scheduler with ternary weighting.
#[derive(Debug, Clone)]
pub struct RoundRobinScheduler {
    prioritize: Vec<Task>,
    neutral: Vec<Task>,
    defer: Vec<Task>,
    position: usize,
}

impl View for RoundRobinScheduler {
    type V = RoundRobinView;

    closed spec fn view(&self) -> RoundRobinView {
        RoundRobinView {
            prioritize: self.prioritize@,
            neutral: self.neutral@,
            defer: self.defer@,
            position: (self.position % 6) as int,
        }
    }
}

/// Every scheduler is somewhere inside the six-slot cycle.
pub proof fn lemma_position_in_cycle(s: RoundRobinScheduler)
    ensures
        0 <= s@.position < 6,
{
}

impl RoundRobinScheduler {
    pub fn new() -> (s: Self)
        ensures
            s@ == (RoundRobinView {
                prioritize: Seq::empty(),
                neutral: Seq::empty(),
                defer: Seq::empty(),
                position: 0,
            }),
            s@.wf(),
    {
        RoundRobinScheduler {
            prioritize: Vec::new(),
            neutral: Vec::new(),
            defer: Vec::new(),
            position: 0,
        }
    }

    /// Add a task to the appropriate queue.
    pub fn add(&mut self, task: Task)
        ensures
            final(self)@ == old(self)@.add_state(task),
            old(self)@.wf() ==> final(self)@.wf(),
    {
        proof {
            if self@.wf() {
                lemma_add_keeps_wf(self@, task);
            }
        }
        match task.ternary_signal {
            TernaryDecision::Prioritize => self.prioritize.push(task),
            TernaryDecision::Neutral => self.neutral.push(task),
            TernaryDecision::Defer => self.defer.push(task),
        }
    }

    /// Whether queue `qi` holds a task.
    fn queue_has_task(&self, qi: usize) -> (b: bool)
        requires
            qi < 3,
        ensures
            b == (self@.queue(qi as int).len() > 0),
    {
        if qi == 0 {
            !self.prioritize.is_empty()
        } else if qi == 1 {
            !self.neutral.is_empty()
        } else {
            !self.defer.is_empty()
        }
    }

    /// Takes the front task of queue `qi`, which holds one.
    fn take_front(&mut self, qi: usize) -> (t: Task)
        requires
            qi < 3,
            old(self)@.queue(qi as int).len() > 0,
        ensures
            t == old(self)@.queue(qi as int)[0],
            final(self)@ == old(self)@.with_queue(
                qi as int,
                old(self)@.queue(qi as int).drop_first(),
            ),
    {
        if qi == 0 {
            self.prioritize.remove(0)
        } else if qi == 1 {
            self.neutral.remove(0)
        } else {
            self.defer.remove(0)
        }
    }

    /// Get the next task, favoring prioritize queue.
    /// Weights: prioritize gets 3 slots, neutral 2, defer 1.
    pub fn next(&mut self) -> (res: Option<Task>)
        ensures
            (final(self)@, res) == old(self)@.next_state(),
            old(self)@.wf() ==> final(self)@.wf(),
    {
        proof {
            if self@.wf() {
                lemma_dispatch_keeps_wf(self@);
            }
        }
        let order: [usize; 6] = [0, 0, 0, 1, 1, 2];
        let ghost start = self@;
        let mut step: usize = 0;
        while step < 6
            invariant
                step <= 6,
                order@ == seq![0usize, 0, 0, 1, 1, 2],
                start == old(self)@,
                start.wf() ==> start.next_state().0.wf(),
                self@ == (RoundRobinView { position: (start.position + step) % 6, ..start }),
                0 <= start.position < 6,
                forall|j: int| 0 <= j < step ==> !start.ready(j),
                start.first_ready_from(0) == start.first_ready_from(step as int),
            decreases 6 - step,
        {
            let qi = order[self.position % 6];
            assert(qi as int == cycle_slot(start.position + step));
            self.position = self.position % 6 + 1;
            assert(self@.position == (start.position + step + 1) % 6);
            if self.queue_has_task(qi) {
                assert(start.ready(step as int));
                assert(start.first_ready_from(0) == step);
                let t = self.take_front(qi);
                assert(self@ =~= start.next_state().0);
                return Some(t);
            }
            assert(start.first_ready_from(step as int) == start.first_ready_from(step + 1));
            step = step + 1;
        }
        // The cycle meets every queue, so all of them are empty here.
        proof {
            lemma_cycle_meets_every_queue(start);
        }
        if !self.prioritize.is_empty() {
            return Some(self.prioritize.remove(0));
        }
        if !self.neutral.is_empty() {
            return Some(self.neutral.remove(0));
        }
        if !self.defer.is_empty() {
            return Some(self.defer.remove(0));
        }
        None
    }

    /// Total tasks across all queues.
    pub fn len(&self) -> (n: usize)
        requires
            self@.len() <= usize::MAX,
        ensures
            n == self@.len(),
    {
        self.prioritize.len() + self.neutral.len() + self.defer.len()
    }

    /// Check if empty.
    pub fn is_empty(&self) -> (b: bool)
        ensures
            b == (self@.len() == 0),
    {
        self.prioritize.is_empty() && self.neutral.is_empty() && self.defer.is_empty()
    }

    /// Tasks in prioritize queue.
    pub fn prioritize_count(&self) -> (n: usize)
        ensures
            n == self@.prioritize.len(),
    {
        self.prioritize.len()
    }

    /// Tasks in defer queue.
    pub fn defer_count(&self) -> (n: usize)
        ensures
            n == self@.defer.len(),
    {
        self.defer.len()
    }
}

impl Default for RoundRobinScheduler {
    fn default() -> (s: Self)
        ensures
            s@ == (RoundRobinView {
                prioritize: Seq::empty(),
                neutral: Seq::empty(),
                defer: Seq::empty(),
                position: 0,
            }),
            s@.wf(),
    {
        Self::new()
    }
}

} // verus!
