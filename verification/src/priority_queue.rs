use vstd::prelude::*;

use std::collections::HashMap;

use crate::decision::TernaryDecision;
use crate::task::Task;

verus! {

/// The position of the first task that no other task ranks above.
pub open spec fn best_index(s: Seq<Task>) -> int
    decreases s.len(),
{
    if s.len() <= 1 {
        0
    } else {
        let m = best_index(s.drop_last());
        if s.last().spec_ranks_above(s[m]) {
            s.len() - 1
        } else {
            m
        }
    }
}

/// The first task that no other task ranks above is one of the tasks, and
/// no task ranks above it.
pub proof fn lemma_best_index(s: Seq<Task>)
    requires
        s.len() > 0,
    ensures
        0 <= best_index(s) < s.len(),
        forall|j: int| 0 <= j < s.len() ==> !(#[trigger] s[j]).spec_ranks_above(s[best_index(s)]),
    decreases s.len(),
{
    if s.len() > 1 {
        lemma_best_index(s.drop_last());
        let m = best_index(s.drop_last());
        assert(s.drop_last()[m] == s[m]);
        assert forall|j: int| 0 <= j < s.len() implies !(#[trigger] s[j]).spec_ranks_above(
            s[best_index(s)],
        ) by {
            if j < s.len() - 1 {
                assert(s.drop_last()[j] == s[j]);
            }
        }
    }
}

/// A task as it leaves the queue: with its signal replaced by the
/// override recorded for its id, if there is one.
pub open spec fn with_override(t: Task, overrides: Map<usize, TernaryDecision>) -> Task {
    if overrides.contains_key(t.id) {
        Task { ternary_signal: overrides[t.id], ..t }
    } else {
        t
    }
}

/// The tasks in the order in which repeated pops take them out.
pub open spec fn pop_order(s: Seq<Task>) -> Seq<Task>
    decreases s.len(),
{
    if s.len() == 0 {
        Seq::empty()
    } else {
        let m = best_index(s);
        proof {
            lemma_best_index(s);
        }
        seq![s[m]] + pop_order(s.remove(m))
    }
}

/// Every task that repeated pops take out is one of the tasks that were in
/// the queue, and as many come out as were in.
pub proof fn lemma_pop_order_elements(s: Seq<Task>)
    ensures
        pop_order(s).len() == s.len(),
        forall|i: int|
            0 <= i < s.len() ==> exists|j: int| 0 <= j < s.len() && #[trigger] pop_order(s)[i] == s[j],
    decreases s.len(),
{
    if s.len() > 0 {
        let m = best_index(s);
        lemma_best_index(s);
        let rest = s.remove(m);
        lemma_pop_order_elements(rest);
        assert forall|i: int| 0 <= i < s.len() implies exists|j: int|
            0 <= j < s.len() && #[trigger] pop_order(s)[i] == s[j] by {
            if i == 0 {
                assert(pop_order(s)[0] == s[m]);
            } else {
                assert(pop_order(s)[i] == pop_order(rest)[i - 1]);
                let j = choose|j: int| 0 <= j < rest.len() && pop_order(rest)[i - 1] == rest[j];
                if j < m {
                    assert(rest[j] == s[j]);
                } else {
                    assert(rest[j] == s[j + 1]);
                }
            }
        }
    }
}

/// Popping everything yields the tasks that were queued, each as often as
/// it was queued.
pub proof fn lemma_pop_order_permutation(s: Seq<Task>)
    ensures
        pop_order(s).to_multiset() =~= s.to_multiset(),
    decreases s.len(),
{
    broadcast use vstd::seq_lib::group_to_multiset_ensures;

    if s.len() > 0 {
        let m = best_index(s);
        lemma_best_index(s);
        let rest = s.remove(m);
        lemma_pop_order_permutation(rest);
        assert(pop_order(s) =~= pop_order(rest).insert(0, s[m]));
        assert(s.to_multiset().contains(s[m]));
        assert(rest.to_multiset() =~= s.to_multiset().remove(s[m]));
    }
}

/// Tasks come out in priority order: no task that comes out later ranks
/// above one that came out earlier.
pub proof fn lemma_pop_order_sorted(s: Seq<Task>)
    ensures
        forall|i: int, j: int|
            0 <= i < j < pop_order(s).len() ==> !(#[trigger] pop_order(s)[j]).spec_ranks_above(
                #[trigger] pop_order(s)[i],
            ),
    decreases s.len(),
{
    if s.len() > 0 {
        let m = best_index(s);
        lemma_best_index(s);
        let rest = s.remove(m);
        lemma_pop_order_sorted(rest);
        lemma_pop_order_elements(rest);
        lemma_pop_order_elements(s);
        assert forall|i: int, j: int| 0 <= i < j < pop_order(s).len() implies !(
        #[trigger] pop_order(s)[j]).spec_ranks_above(#[trigger] pop_order(s)[i]) by {
            assert(pop_order(s)[j] == pop_order(rest)[j - 1]);
            if i == 0 {
                let k = choose|k: int| 0 <= k < rest.len() && pop_order(rest)[j - 1] == rest[k];
                if k < m {
                    assert(rest[k] == s[k]);
                } else {
                    assert(rest[k] == s[k + 1]);
                }
            } else {
                assert(pop_order(s)[i] == pop_order(rest)[i - 1]);
            }
        }
    }
}

/// The abstract state of a priority queue: the tasks in the order they were
/// pushed, and the signal overrides by task id.
pub struct PriorityQueueView {
    pub contents: Seq<Task>,
    pub overrides: Map<usize, TernaryDecision>,
}

impl PriorityQueueView {
    /// The task that the next pop takes out, as it is stored.
    pub open spec fn top(self) -> Option<Task> {
        if self.contents.len() == 0 {
            None
        } else {
            Some(self.contents[best_index(self.contents)])
        }
    }

    /// One pop: the top task leaves, and comes out with its override applied.
    pub open spec fn pop_state(self) -> (PriorityQueueView, Option<Task>) {
        if self.contents.len() == 0 {
            (self, None)
        } else {
            let m = best_index(self.contents);
            (
                PriorityQueueView { contents: self.contents.remove(m), ..self },
                Some(with_override(self.contents[m], self.overrides)),
            )
        }
    }

    /// The state after recording an override.
    pub open spec fn set_signal_state(self, task_id: usize, signal: TernaryDecision) -> PriorityQueueView {
        PriorityQueueView { overrides: self.overrides.insert(task_id, signal), ..self }
    }
}

/// A pop takes out the task that peek shows, with its override applied.
pub proof fn lemma_pop_takes_top(v: PriorityQueueView)
    ensures
        v.pop_state().1 == (match v.top() {
            Some(t) => Some(with_override(t, v.overrides)),
            None => None,
        }),
{
}

/// Overrides do not reorder the queue: which task a pop takes out does not
/// depend on the overrides recorded.
pub proof fn lemma_overrides_do_not_reorder(
    v: PriorityQueueView,
    task_id: usize,
    signal: TernaryDecision,
)
    ensures
        v.set_signal_state(task_id, signal).pop_state().0.contents == v.pop_state().0.contents,
        v.set_signal_state(task_id, signal).top() == v.top(),
{
}

/// The top task has the highest effective priority in the queue, and among
/// the tasks of that priority the lowest id.
pub proof fn lemma_top_is_highest_priority(v: PriorityQueueView)
    requires
        v.contents.len() > 0,
    ensures
        forall|j: int|
            0 <= j < v.contents.len() ==> (#[trigger] v.contents[j]).spec_effective_priority()
                <= v.top()->0.spec_effective_priority(),
        forall|j: int|
            0 <= j < v.contents.len() && (#[trigger] v.contents[j]).spec_effective_priority()
                == v.top()->0.spec_effective_priority() ==> v.top()->0.id <= v.contents[j].id,
        exists|j: int| 0 <= j < v.contents.len() && v.contents[j] == v.top()->0,
{
    lemma_best_index(v.contents);
    let m = best_index(v.contents);
    assert(v.contents[m] == v.top()->0);
}

/// Recording an override replaces whatever was recorded for that id, leaves
/// the overrides of other ids and the queued tasks alone.
pub proof fn lemma_set_signal_records_latest(
    v: PriorityQueueView,
    task_id: usize,
    signal: TernaryDecision,
)
    ensures
        v.set_signal_state(task_id, signal).contents == v.contents,
        v.set_signal_state(task_id, signal).overrides.contains_key(task_id),
        v.set_signal_state(task_id, signal).overrides[task_id] == signal,
        forall|k: usize|
            k != task_id ==> (#[trigger] v.set_signal_state(task_id, signal).overrides.contains_key(k)
                == v.overrides.contains_key(k)) && (v.overrides.contains_key(k) ==> v.set_signal_state(
                task_id,
                signal,
            ).overrides[k] == v.overrides[k]),
{
}

/// A pop hands out the top task unchanged but for its signal, which is the
/// one recorded for its id, if any, and its own otherwise.
pub proof fn lemma_pop_result_fields(v: PriorityQueueView)
    requires
        v.contents.len() > 0,
    ensures
        v.pop_state().1 is Some,
        ({
            let t = v.pop_state().1->0;
            let top = v.top()->0;
            &&& t.id == top.id
            &&& t.name == top.name
            &&& t.base_priority == top.base_priority
            &&& t.deadline == top.deadline
            &&& t.effort == top.effort
            &&& t.ternary_signal == (if v.overrides.contains_key(top.id) {
                v.overrides[top.id]
            } else {
                top.ternary_signal
            })
        }),
        v.pop_state().0.contents.len() == v.contents.len() - 1,
{
    lemma_best_index(v.contents);
}

/// The latest override wins at pop: after recording `signal` for the id of
/// the top task, a pop hands that task out with `signal`, whatever was
/// recorded for it before.
pub proof fn lemma_pop_uses_latest_override(
    v: PriorityQueueView,
    signal: TernaryDecision,
)
    requires
        v.contents.len() > 0,
    ensures
        v.set_signal_state(v.top()->0.id, signal).pop_state().1 == Some(
            Task { ternary_signal: signal, ..v.top()->0 },
        ),
{
    let w = v.set_signal_state(v.top()->0.id, signal);
    lemma_set_signal_records_latest(v, v.top()->0.id, signal);
    lemma_pop_result_fields(w);
    assert(w.top() == v.top());
}

/// A priority queue for tasks with ternary signals.
#[derive(Debug, Clone)]
pub struct TernaryPriorityQueue {
    contents: Vec<Task>,
    signal_overrides: HashMap<usize, TernaryDecision>,
}

impl View for TernaryPriorityQueue {
    type V = PriorityQueueView;

    closed spec fn view(&self) -> PriorityQueueView {
        PriorityQueueView { contents: self.contents@, overrides: self.signal_overrides@ }
    }
}

impl TernaryPriorityQueue {
    pub fn new() -> (q: Self)
        ensures
            q@.contents == Seq::<Task>::empty(),
            q@.overrides == Map::<usize, TernaryDecision>::empty(),
    {
        TernaryPriorityQueue { contents: Vec::new(), signal_overrides: HashMap::new() }
    }

    /// Push a task into the queue.
    pub fn push(&mut self, task: Task)
        ensures
            final(self)@.contents == old(self)@.contents.push(task),
            final(self)@.overrides == old(self)@.overrides,
    {
        self.contents.push(task);
    }

    /// Apply a ternary signal override to a task by id.
    pub fn set_signal(&mut self, task_id: usize, signal: TernaryDecision)
        ensures
            final(self)@ == old(self)@.set_signal_state(task_id, signal),
    {
        self.signal_overrides.insert(task_id, signal);
    }

    /// The position of the top task; the queue holds one.
    fn best_position(&self) -> (m: usize)
        requires
            self.contents.len() > 0,
        ensures
            m == best_index(self.contents@),
            m < self.contents.len(),
    {
        proof {
            lemma_best_index(self.contents@);
        }
        let mut m: usize = 0;
        let mut i: usize = 1;
        while i < self.contents.len()
            invariant
                1 <= i <= self.contents.len(),
                m == best_index(self.contents@.take(i as int)),
                m < i,
            decreases self.contents.len() - i,
        {
            let ghost prefix = self.contents@.take(i + 1);
            assert(prefix.drop_last() =~= self.contents@.take(i as int));
            assert(prefix.last() == self.contents@[i as int]);
            assert(prefix[m as int] == self.contents@[m as int]);
            if self.contents[i].ranks_above(&self.contents[m]) {
                m = i;
            }
            i = i + 1;
        }
        assert(self.contents@.take(self.contents.len() as int) =~= self.contents@);
        m
    }

    /// Pop the highest priority task, applying any signal overrides.
    pub fn pop(&mut self) -> (res: Option<Task>)
        ensures
            (final(self)@, res) == old(self)@.pop_state(),
    {
        if self.contents.is_empty() {
            return None;
        }
        let m = self.best_position();
        let mut task = self.contents.remove(m);
        if let Some(signal) = self.signal_overrides.get(&task.id) {
            task.ternary_signal = *signal;
        }
        Some(task)
    }

    /// Peek at the highest priority task.
    pub fn peek(&self) -> (res: Option<&Task>)
        ensures
            match res {
                Some(t) => self@.top() == Some(*t),
                None => self@.top() is None,
            },
    {
        if self.contents.is_empty() {
            None
        } else {
            let m = self.best_position();
            Some(&self.contents[m])
        }
    }

    /// Number of tasks.
    pub fn len(&self) -> (n: usize)
        ensures
            n == self@.contents.len(),
    {
        self.contents.len()
    }

    /// Check if empty.
    pub fn is_empty(&self) -> (b: bool)
        ensures
            b == (self@.contents.len() == 0),
    {
        self.contents.is_empty()
    }

    /// Drain all tasks in priority order.
    pub fn drain_sorted(&mut self) -> (tasks: Vec<Task>)
        ensures
            tasks@ == pop_order(old(self)@.contents).map_values(
                |t: Task| with_override(t, old(self)@.overrides),
            ),
            final(self)@.contents == Seq::<Task>::empty(),
            final(self)@.overrides == old(self)@.overrides,
    {
        let ghost overrides = self@.overrides;
        let ghost all = self@.contents;
        let mut tasks: Vec<Task> = Vec::new();
        loop
            invariant
                self@.overrides == overrides,
                tasks@ + pop_order(self@.contents).map_values(
                    |t: Task| with_override(t, overrides),
                ) == pop_order(all).map_values(|t: Task| with_override(t, overrides)),
            ensures
                self@.contents.len() == 0,
                tasks@ == pop_order(all).map_values(|t: Task| with_override(t, overrides)),
            decreases self@.contents.len(),
        {
            let ghost before = self@.contents;
            match self.pop() {
                Some(task) => {
                    proof {
                        let f = |t: Task| with_override(t, overrides);
                        let m = best_index(before);
                        lemma_best_index(before);
                        assert(pop_order(before) == seq![before[m]] + pop_order(before.remove(m)));
                        assert(pop_order(before).map_values(f) =~= seq![f(before[m])]
                            + pop_order(before.remove(m)).map_values(f));
                        assert(tasks@.push(task) + pop_order(self@.contents).map_values(f)
                            =~= tasks@ + pop_order(before).map_values(f));
                    }
                    tasks.push(task);
                },
                None => {
                    assert(pop_order(self@.contents).map_values(
                        |t: Task| with_override(t, overrides),
                    ) =~= Seq::<Task>::empty());
                    assert(tasks@ + Seq::<Task>::empty() =~= tasks@);
                    break;
                },
            }
        }
        tasks
    }
}

impl Default for TernaryPriorityQueue {
    fn default() -> (q: Self)
        ensures
            q@.contents == Seq::<Task>::empty(),
            q@.overrides == Map::<usize, TernaryDecision>::empty(),
    {
        Self::new()
    }
}

} // verus!
