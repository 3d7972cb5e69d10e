use vstd::prelude::*;

use crate::decision::TernaryDecision;
use crate::sorting::{
    int_keys, is_stable_sort_order, lemma_stable_sort_keys_ascending, stable_sort_order,
};
use crate::task::Task;

verus! {

/// A task is overdue once its deadline is at or before the current time.
pub open spec fn is_overdue(t: Task, current_time: u64) -> bool {
    match t.deadline {
        Some(dl) => dl <= current_time,
        None => false,
    }
}

/// The overdue tasks among `tasks`, in their order.
pub open spec fn overdue_tasks(tasks: Seq<Task>, current_time: u64) -> Seq<Task> {
    tasks.filter(|t: Task| is_overdue(t, current_time))
}

/// The tasks behind a sequence of references.
pub open spec fn derefs(s: Seq<&Task>) -> Seq<Task> {
    s.map_values(|t: &Task| *t)
}

/// The tasks at the given indices, in that order.
pub open spec fn pick(tasks: Seq<Task>, order: Seq<usize>) -> Seq<Task> {
    order.map_values(|i: usize| tasks[i as int])
}

/// Sort keys that put the most urgent task first.
pub open spec fn urgency_keys(tasks: Seq<Task>, current_time: u64) -> Seq<(int, int)> {
    Seq::new(tasks.len(), |i: int| (-tasks[i].spec_urgency(current_time), 0int))
}

/// Sort keys that put the earliest deadline first (a missing deadline
/// counts as `u64::MAX`) and, on equal deadlines, the higher effective
/// priority first.
pub open spec fn deadline_priority_keys(tasks: Seq<Task>) -> Seq<(int, int)> {
    Seq::new(
        tasks.len(),
        |i: int| (tasks[i].deadline_or_max(), -tasks[i].spec_effective_priority()),
    )
}

/// An order sorted by `urgency_keys` lists urgencies from the highest down,
/// and tasks of equal urgency in input order.
pub proof fn lemma_urgency_order_descending(tasks: Seq<Task>, current_time: u64, order: Seq<usize>)
    requires
        is_stable_sort_order(urgency_keys(tasks, current_time), order),
    ensures
        forall|p: int, q: int|
            0 <= p < q < order.len() ==> tasks[#[trigger] order[p] as int].spec_urgency(current_time)
                >= tasks[#[trigger] order[q] as int].spec_urgency(current_time),
        forall|p: int, q: int|
            0 <= p < q < order.len() && tasks[#[trigger] order[p] as int].spec_urgency(current_time)
                == tasks[#[trigger] order[q] as int].spec_urgency(current_time) ==> order[p]
                < order[q],
{
    lemma_stable_sort_keys_ascending(urgency_keys(tasks, current_time), order);
}

/// An order sorted by `deadline_priority_keys` lists deadlines from the
/// earliest on, and among equal deadlines the higher effective priority
/// first.
pub proof fn lemma_deadline_priority_order(tasks: Seq<Task>, order: Seq<usize>)
    requires
        is_stable_sort_order(deadline_priority_keys(tasks), order),
    ensures
        forall|p: int, q: int|
            0 <= p < q < order.len() ==> {
                let a = tasks[#[trigger] order[p] as int];
                let b = tasks[#[trigger] order[q] as int];
                &&& a.deadline_or_max() <= b.deadline_or_max()
                &&& a.deadline_or_max() == b.deadline_or_max() ==> a.spec_effective_priority()
                    >= b.spec_effective_priority()
                &&& a.deadline_or_max() == b.deadline_or_max() && a.spec_effective_priority()
                    == b.spec_effective_priority() ==> order[p] < order[q]
            },
{
    lemma_stable_sort_keys_ascending(deadline_priority_keys(tasks), order);
}

/// The signal that the last decision naming `id` sets, if any names it.
pub open spec fn last_decision_for(ds: Seq<(usize, TernaryDecision)>, id: usize) -> Option<
    TernaryDecision,
>
    decreases ds.len(),
{
    if ds.len() == 0 {
        None
    } else if ds.last().0 == id {
        Some(ds.last().1)
    } else {
        last_decision_for(ds.drop_last(), id)
    }
}

/// A task after a list of decisions: the last one naming it sets its signal.
pub open spec fn after_decisions(t: Task, ds: Seq<(usize, TernaryDecision)>) -> Task {
    match last_decision_for(ds, t.id) {
        Some(s) => Task { ternary_signal: s, ..t },
        None => t,
    }
}

/// Some task in `tasks` has the given id.
pub open spec fn has_id(tasks: Seq<Task>, id: usize) -> bool {
    exists|i: int| 0 <= i < tasks.len() && #[trigger] tasks[i].id == id
}

/// `p` is the first position in `tasks` of a task with the given id.
pub open spec fn is_first_with_id(tasks: Seq<Task>, id: usize, p: int) -> bool {
    &&& 0 <= p < tasks.len()
    &&& tasks[p].id == id
    &&& forall|q: int| 0 <= q < p ==> (#[trigger] tasks[q]).id != id
}

/// The overdue tasks are exactly the tasks with a deadline at or before the
/// current time, in their order: each listed task has such a deadline,
/// every task with such a deadline is listed, and effort, priority and
/// signal play no part.
pub proof fn lemma_overdue_exactly_past_deadlines(tasks: Seq<Task>, current_time: u64)
    ensures
        forall|i: int|
            0 <= i < overdue_tasks(tasks, current_time).len() ==> {
                let t = #[trigger] overdue_tasks(tasks, current_time)[i];
                t.deadline is Some && t.deadline->0 <= current_time
            },
        forall|j: int|
            0 <= j < tasks.len() && (#[trigger] tasks[j]).deadline is Some && tasks[j].deadline->0
                <= current_time ==> overdue_tasks(tasks, current_time).contains(
                tasks[j],
            ),
        forall|j: int|
            0 <= j < tasks.len() && !(tasks[j].deadline is Some && tasks[j].deadline->0
                <= current_time) ==> !overdue_tasks(tasks, current_time).contains(
                #[trigger] tasks[j],
            ),
{
    let pred = |t: Task| is_overdue(t, current_time);
    let f = overdue_tasks(tasks, current_time);
    assert(f == tasks.filter(pred));
    assert forall|i: int| 0 <= i < f.len() implies {
        let t = #[trigger] f[i];
        t.deadline is Some && t.deadline->0 <= current_time
    } by {
        tasks.lemma_filter_pred(pred, i);
    }
    assert forall|j: int|
        0 <= j < tasks.len() && (#[trigger] tasks[j]).deadline is Some && tasks[j].deadline->0
            <= current_time implies f.contains(tasks[j]) by {
        tasks.lemma_filter_contains(pred, j);
    }
    assert forall|j: int|
        0 <= j < tasks.len() && !(tasks[j].deadline is Some && tasks[j].deadline->0
            <= current_time) implies !f.contains(#[trigger] tasks[j]) by {
        if f.contains(tasks[j]) {
            let i = choose|i: int| 0 <= i < f.len() && f[i] == tasks[j];
            tasks.lemma_filter_pred(pred, i);
        }
    }
}

/// The last decision naming an id wins, whatever signal it carries: when
/// decision `k` is the last one naming `t`'s id, `t` ends with its signal
/// and keeps everything else.
pub proof fn lemma_last_decision_wins(t: Task, ds: Seq<(usize, TernaryDecision)>, k: int)
    requires
        0 <= k < ds.len(),
        ds[k].0 == t.id,
        forall|k2: int| k < k2 < ds.len() ==> (#[trigger] ds[k2]).0 != t.id,
    ensures
        last_decision_for(ds, t.id) == Some(ds[k].1),
        after_decisions(t, ds) == (Task { ternary_signal: ds[k].1, ..t }),
    decreases ds.len(),
{
    if k < ds.len() - 1 {
        assert(ds[ds.len() - 1].0 != t.id);
        lemma_last_decision_wins(t, ds.drop_last(), k);
    }
}

/// A task that no decision names keeps its signal.
pub proof fn lemma_unnamed_task_unchanged(t: Task, ds: Seq<(usize, TernaryDecision)>)
    requires
        forall|k: int| 0 <= k < ds.len() ==> (#[trigger] ds[k]).0 != t.id,
    ensures
        last_decision_for(ds, t.id) is None,
        after_decisions(t, ds) == t,
    decreases ds.len(),
{
    if ds.len() > 0 {
        assert(ds[ds.len() - 1].0 != t.id);
        assert forall|k: int| 0 <= k < ds.drop_last().len() implies (#[trigger] ds.drop_last()[k]).0
            != t.id by {
            assert(ds.drop_last()[k] == ds[k]);
        }
        lemma_unnamed_task_unchanged(t, ds.drop_last());
    }
}

/// Deadline-aware scheduler.
#[derive(Debug, Clone)]
pub struct DeadlineScheduler {
    tasks: Vec<Task>,
    current_time: u64,
}

impl DeadlineScheduler {
    /// The tasks, in the order they were added.
    pub closed spec fn spec_tasks(&self) -> Seq<Task> {
        self.tasks@
    }

    /// The scheduler's clock.
    pub closed spec fn spec_current_time(&self) -> u64 {
        self.current_time
    }

    pub fn new(current_time: u64) -> (s: Self)
        ensures
            s.spec_tasks() == Seq::<Task>::empty(),
            s.spec_current_time() == current_time,
    {
        DeadlineScheduler { tasks: Vec::new(), current_time }
    }

    /// Add a task.
    pub fn add(&mut self, task: Task)
        ensures
            final(self).spec_tasks() == old(self).spec_tasks().push(task),
            final(self).spec_current_time() == old(self).spec_current_time(),
    {
        self.tasks.push(task);
    }

    /// Advance time.
    pub fn advance_time(&mut self, dt: u64)
        requires
            old(self).spec_current_time() + dt <= u64::MAX,
        ensures
            final(self).spec_tasks() == old(self).spec_tasks(),
            final(self).spec_current_time() == old(self).spec_current_time() + dt,
    {
        self.current_time = self.current_time + dt;
    }

    /// Get tasks that are overdue.
    pub fn overdue(&self) -> (res: Vec<&Task>)
        ensures
            derefs(res@) == overdue_tasks(self.spec_tasks(), self.spec_current_time()),
    {
        let ghost pred = |t: Task| is_overdue(t, self.current_time);
        let mut res: Vec<&Task> = Vec::new();
        let mut i: usize = 0;
        while i < self.tasks.len()
            invariant
                i <= self.tasks.len(),
                pred == (|t: Task| is_overdue(t, self.current_time)),
                derefs(res@) == self.tasks@.take(i as int).filter(pred),
            decreases self.tasks.len() - i,
        {
            let t = &self.tasks[i];
            let due = match t.deadline {
                Some(dl) => dl <= self.current_time,
                None => false,
            };
            proof {
                reveal(Seq::filter);
                assert(self.tasks@.take(i + 1).drop_last() =~= self.tasks@.take(i as int));
                assert(self.tasks@.take(i + 1).last() == *t);
            }
            if due {
                res.push(t);
                assert(derefs(res@) =~= self.tasks@.take(i as int).filter(pred).push(*t));
            }
            i = i + 1;
        }
        assert(self.tasks@.take(self.tasks.len() as int) =~= self.tasks@);
        res
    }

    /// References to the tasks at the given indices, in that order.
    fn refs_in_order<'a>(&'a self, order: &Vec<usize>) -> (res: Vec<&'a Task>)
        requires
            forall|p: int| 0 <= p < order.len() ==> #[trigger] order@[p] < self.tasks.len(),
        ensures
            derefs(res@) == pick(self.tasks@, order@),
    {
        let mut res: Vec<&Task> = Vec::new();
        let mut p: usize = 0;
        while p < order.len()
            invariant
                p <= order.len(),
                forall|q: int| 0 <= q < order.len() ==> #[trigger] order@[q] < self.tasks.len(),
                res.len() == p,
                forall|q: int| 0 <= q < p ==> derefs(res@)[q] == pick(self.tasks@, order@)[q],
            decreases order.len() - p,
        {
            let ghost prev = res@;
            res.push(&self.tasks[order[p]]);
            assert forall|q: int| 0 <= q < p + 1 implies derefs(res@)[q] == pick(
                self.tasks@,
                order@,
            )[q] by {
                if q < p {
                    assert(derefs(prev)[q] == pick(self.tasks@, order@)[q]);
                    assert(res@[q] == prev[q]);
                }
            }
            p = p + 1;
        }
        assert(derefs(res@) =~= pick(self.tasks@, order@));
        res
    }

    /// Get tasks sorted by urgency (most urgent first); tasks of equal
    /// urgency keep the order in which they were added.
    pub fn schedule_by_urgency(&self) -> (res: Vec<&Task>)
        ensures
            exists|order: Seq<usize>|
                is_stable_sort_order(
                    urgency_keys(self.spec_tasks(), self.spec_current_time()),
                    order,
                ) && derefs(res@) == pick(self.spec_tasks(), order),
    {
        let mut keys: Vec<(i128, i128)> = Vec::new();
        let mut i: usize = 0;
        while i < self.tasks.len()
            invariant
                i <= self.tasks.len(),
                keys.len() == i,
                forall|j: int|
                    0 <= j < i ==> int_keys(keys@)[j] == urgency_keys(
                        self.tasks@,
                        self.current_time,
                    )[j],
            decreases self.tasks.len() - i,
        {
            let u: i128 = self.tasks[i].urgency_wide(self.current_time);
            let ghost prev = keys@;
            keys.push((-u, 0i128));
            assert forall|j: int| 0 <= j < i + 1 implies int_keys(keys@)[j] == urgency_keys(
                self.tasks@,
                self.current_time,
            )[j] by {
                if j < i {
                    assert(int_keys(prev)[j] == urgency_keys(self.tasks@, self.current_time)[j]);
                    assert(keys@[j] == prev[j]);
                }
            }
            i = i + 1;
        }
        assert(int_keys(keys@) =~= urgency_keys(self.tasks@, self.current_time));
        let order = stable_sort_order(&keys);
        let res = self.refs_in_order(&order);
        assert(derefs(res@) == pick(self.spec_tasks(), order@));
        res
    }

    /// Get tasks sorted by deadline (earliest first, a missing deadline
    /// last); equal deadlines put the higher effective priority first, and
    /// then keep the order in which the tasks were added.
    pub fn schedule_by_deadline(&self) -> (res: Vec<&Task>)
        ensures
            exists|order: Seq<usize>|
                is_stable_sort_order(deadline_priority_keys(self.spec_tasks()), order)
                    && derefs(res@) == pick(self.spec_tasks(), order),
    {
        let mut keys: Vec<(i128, i128)> = Vec::new();
        let mut i: usize = 0;
        while i < self.tasks.len()
            invariant
                i <= self.tasks.len(),
                keys.len() == i,
                forall|j: int|
                    0 <= j < i ==> int_keys(keys@)[j] == deadline_priority_keys(self.tasks@)[j],
            decreases self.tasks.len() - i,
        {
            let d: u64 = self.tasks[i].deadline_or_max_exec();
            let p: i64 = self.tasks[i].effective_priority_wide();
            let ghost prev = keys@;
            keys.push((d as i128, -(p as i128)));
            assert forall|j: int| 0 <= j < i + 1 implies int_keys(keys@)[j]
                == deadline_priority_keys(self.tasks@)[j] by {
                if j < i {
                    assert(int_keys(prev)[j] == deadline_priority_keys(self.tasks@)[j]);
                    assert(keys@[j] == prev[j]);
                }
            }
            i = i + 1;
        }
        assert(int_keys(keys@) =~= deadline_priority_keys(self.tasks@));
        let order = stable_sort_order(&keys);
        let res = self.refs_in_order(&order);
        assert(derefs(res@) == pick(self.spec_tasks(), order@));
        res
    }

    /// Remove and return the first task with the given id.
    pub fn remove(&mut self, id: usize) -> (res: Option<Task>)
        ensures
            final(self).spec_current_time() == old(self).spec_current_time(),
            match res {
                None => final(self).spec_tasks() == old(self).spec_tasks() && !has_id(
                    old(self).spec_tasks(),
                    id,
                ),
                Some(t) => exists|p: int|
                    #[trigger] is_first_with_id(old(self).spec_tasks(), id, p) && t == old(self).spec_tasks()[p]
                        && final(self).spec_tasks() == old(self).spec_tasks().remove(p),
            },
    {
        let mut pos: usize = 0;
        while pos < self.tasks.len() && self.tasks[pos].id != id
            invariant
                pos <= self.tasks.len(),
                self.tasks@ == old(self).tasks@,
                self.current_time == old(self).current_time,
                forall|q: int| 0 <= q < pos ==> (#[trigger] self.tasks@[q]).id != id,
            decreases self.tasks.len() - pos,
        {
            pos = pos + 1;
        }
        if pos < self.tasks.len() {
            let t = self.tasks.remove(pos);
            assert(is_first_with_id(old(self).spec_tasks(), id, pos as int));
            assert(t == old(self).spec_tasks()[pos as int]);
            assert(self.spec_tasks() == old(self).spec_tasks().remove(pos as int));
            Some(t)
        } else {
            None
        }
    }

    /// Number of tasks.
    pub fn len(&self) -> (n: usize)
        ensures
            n == self.spec_tasks().len(),
    {
        self.tasks.len()
    }

    /// Check if empty.
    pub fn is_empty(&self) -> (b: bool)
        ensures
            b == (self.spec_tasks().len() == 0),
    {
        self.tasks.is_empty()
    }

    /// Get current time.
    pub fn current_time(&self) -> (t: u64)
        ensures
            t == self.spec_current_time(),
    {
        self.current_time
    }

    /// The tasks, in the order they were added.
    pub fn tasks(&self) -> (ts: &[Task])
        ensures
            ts@ == self.spec_tasks(),
    {
        self.tasks.as_slice()
    }

    /// Apply ternary decisions to modify task priorities: each decision
    /// sets the signal of every task with its id, so for each task the last
    /// decision naming it wins.
    pub fn apply_decisions(&mut self, decisions: &[(usize, TernaryDecision)])
        ensures
            final(self).spec_current_time() == old(self).spec_current_time(),
            final(self).spec_tasks().len() == old(self).spec_tasks().len(),
            forall|i: int|
                0 <= i < old(self).spec_tasks().len() ==> #[trigger] final(self).spec_tasks()[i]
                    == after_decisions(old(self).spec_tasks()[i], decisions@),
    {
        let ghost before = self.tasks@;
        let mut k: usize = 0;
        while k < decisions.len()
            invariant
                k <= decisions.len(),
                self.current_time == old(self).current_time,
                self.tasks.len() == before.len(),
                forall|i: int|
                    0 <= i < before.len() ==> #[trigger] self.tasks@[i] == after_decisions(
                        before[i],
                        decisions@.take(k as int),
                    ),
            decreases decisions.len() - k,
        {
            let (task_id, decision) = decisions[k];
            proof {
                assert(decisions@.take(k + 1).drop_last() =~= decisions@.take(k as int));
                assert(decisions@.take(k + 1).last() == decisions@[k as int]);
            }
            let mut j: usize = 0;
            while j < self.tasks.len()
                invariant
                    k < decisions.len(),
                    (task_id, decision) == decisions@[k as int],
                    decisions@.take(k + 1).drop_last() == decisions@.take(k as int),
                    decisions@.take(k + 1).last() == decisions@[k as int],
                    j <= self.tasks.len(),
                    self.current_time == old(self).current_time,
                    self.tasks.len() == before.len(),
                    forall|i: int|
                        0 <= i < j ==> #[trigger] self.tasks@[i] == after_decisions(
                            before[i],
                            decisions@.take(k + 1),
                        ),
                    forall|i: int|
                        j <= i < before.len() ==> #[trigger] self.tasks@[i] == after_decisions(
                            before[i],
                            decisions@.take(k as int),
                        ),
                decreases self.tasks.len() - j,
            {
                if self.tasks[j].id == task_id {
                    self.tasks[j].ternary_signal = decision;
                }
                j = j + 1;
            }
            k = k + 1;
        }
        assert(decisions@.take(decisions.len() as int) =~= decisions@);
    }
}

} // verus!
