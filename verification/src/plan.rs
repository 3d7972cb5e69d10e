use vstd::prelude::*;

use crate::sorting::{
    int_keys, is_stable_sort_order, lemma_stable_sort_keys_ascending,
    lemma_stable_sort_order_unique, stable_sort_order,
};
use crate::task::Task;

verus! {

/// Sort keys that put higher effective priority first.
pub open spec fn priority_keys(tasks: Seq<Task>) -> Seq<(int, int)> {
    Seq::new(tasks.len(), |i: int| (-tasks[i].spec_effective_priority(), 0int))
}

/// Sort keys that put earlier deadlines first, a missing deadline last.
pub open spec fn deadline_keys(tasks: Seq<Task>) -> Seq<(int, int)> {
    Seq::new(tasks.len(), |i: int| (tasks[i].deadline_or_max(), 0int))
}

/// The time at which the first `m` tasks of `order` are done, when they run
/// back to back from time zero, each for its effort.
pub open spec fn finish_time(tasks: Seq<Task>, order: Seq<usize>, m: int) -> int
    decreases m,
{
    if m <= 0 {
        0
    } else {
        finish_time(tasks, order, m - 1) + tasks[order[m - 1] as int].effort
    }
}

/// A task that finishes at `finish` is done by its deadline, if it has one.
pub open spec fn done_in_time(t: Task, finish: int) -> bool {
    match t.deadline {
        Some(dl) => finish <= dl,
        None => true,
    }
}

/// Running the tasks back to back in `order`, every task with a deadline is
/// done by it.
pub open spec fn meets_deadlines(tasks: Seq<Task>, order: Seq<usize>) -> bool {
    forall|p: int|
        0 <= p < order.len() ==> done_in_time(
            #[trigger] tasks[order[p] as int],
            finish_time(tasks, order, p + 1),
        )
}

/// An order sorted by `priority_keys` lists effective priorities from the
/// highest down, and tasks of equal effective priority in input order.
pub proof fn lemma_priority_order_descending(tasks: Seq<Task>, order: Seq<usize>)
    requires
        is_stable_sort_order(priority_keys(tasks), order),
    ensures
        forall|p: int, q: int|
            0 <= p < q < order.len() ==> tasks[#[trigger] order[p] as int].spec_effective_priority()
                >= tasks[#[trigger] order[q] as int].spec_effective_priority(),
        forall|p: int, q: int|
            0 <= p < q < order.len() && tasks[#[trigger] order[p] as int].spec_effective_priority()
                == tasks[#[trigger] order[q] as int].spec_effective_priority() ==> order[p]
                < order[q],
{
    lemma_stable_sort_keys_ascending(priority_keys(tasks), order);
}

/// An order sorted by `deadline_keys` lists deadlines from the earliest on,
/// tasks without a deadline last, and equal deadlines in input order.
pub proof fn lemma_deadline_order_ascending(tasks: Seq<Task>, order: Seq<usize>)
    requires
        is_stable_sort_order(deadline_keys(tasks), order),
    ensures
        forall|p: int, q: int|
            0 <= p < q < order.len() ==> tasks[#[trigger] order[p] as int].deadline_or_max()
                <= tasks[#[trigger] order[q] as int].deadline_or_max(),
        forall|p: int, q: int|
            0 <= p < q < order.len() && tasks[#[trigger] order[p] as int].deadline_or_max()
                == tasks[#[trigger] order[q] as int].deadline_or_max() ==> order[p] < order[q],
{
    lemma_stable_sort_keys_ascending(deadline_keys(tasks), order);
}

/// Tasks without deadlines can always be scheduled: any order meets them.
pub proof fn lemma_no_deadlines_always_feasible(tasks: Seq<Task>, order: Seq<usize>)
    requires
        forall|i: int| 0 <= i < tasks.len() ==> (#[trigger] tasks[i]).deadline is None,
        forall|p: int| 0 <= p < order.len() ==> #[trigger] order[p] < tasks.len(),
    ensures
        meets_deadlines(tasks, order),
{
    assert forall|p: int| 0 <= p < order.len() implies done_in_time(
        #[trigger] tasks[order[p] as int],
        finish_time(tasks, order, p + 1),
    ) by {
        assert(tasks[order[p] as int].deadline is None);
    }
}

/// Builds the machine keys of `priority_keys`.
fn priority_key_vec(tasks: &[Task]) -> (keys: Vec<(i128, i128)>)
    ensures
        int_keys(keys@) == priority_keys(tasks@),
{
    let mut keys: Vec<(i128, i128)> = Vec::new();
    let mut i: usize = 0;
    while i < tasks.len()
        invariant
            i <= tasks.len(),
            keys.len() == i,
            forall|j: int| 0 <= j < i ==> int_keys(keys@)[j] == priority_keys(tasks@)[j],
        decreases tasks.len() - i,
    {
        let p: i64 = tasks[i].effective_priority_wide();
        keys.push((-(p as i128), 0i128));
        i = i + 1;
    }
    assert(int_keys(keys@) =~= priority_keys(tasks@));
    keys
}

/// Builds the machine keys of `deadline_keys`.
fn deadline_key_vec(tasks: &[Task]) -> (keys: Vec<(i128, i128)>)
    ensures
        int_keys(keys@) == deadline_keys(tasks@),
{
    let mut keys: Vec<(i128, i128)> = Vec::new();
    let mut i: usize = 0;
    while i < tasks.len()
        invariant
            i <= tasks.len(),
            keys.len() == i,
            forall|j: int| 0 <= j < i ==> int_keys(keys@)[j] == deadline_keys(tasks@)[j],
        decreases tasks.len() - i,
    {
        let d: u64 = tasks[i].deadline_or_max_exec();
        keys.push((d as i128, 0i128));
        i = i + 1;
    }
    assert(int_keys(keys@) =~= deadline_keys(tasks@));
    keys
}

/// Orders tasks by effective priority: the task indices, highest effective
/// priority first, ties in input order. Efforts play no part.
pub fn schedule_min_weighted_completion(tasks: &[Task]) -> (order: Vec<usize>)
    ensures
        is_stable_sort_order(priority_keys(tasks@), order@),
{
    let keys = priority_key_vec(tasks);
    stable_sort_order(&keys)
}

/// Schedule tasks respecting deadlines using earliest deadline first.
/// Returns task indices in order, or None if infeasible.
///
/// The order is a stable sort by deadline (a missing deadline counts as
/// `u64::MAX`); it is feasible when, with the tasks run back to back from
/// time zero, every task with a deadline finishes by it. By
/// `lemma_edf_is_optimal`, when this order misses a deadline, so does every
/// other order of the tasks.
pub fn earliest_deadline_first(tasks: &[Task]) -> (res: Option<Vec<usize>>)
    ensures
        match res {
            Some(order) => is_stable_sort_order(deadline_keys(tasks@), order@) && meets_deadlines(
                tasks@,
                order@,
            ),
            None => forall|order: Seq<usize>|
                is_stable_sort_order(deadline_keys(tasks@), order) ==> !meets_deadlines(
                    tasks@,
                    order,
                ),
        },
{
    let keys = deadline_key_vec(tasks);
    let order = stable_sort_order(&keys);
    let ghost ks = deadline_keys(tasks@);
    let mut time: u128 = 0;
    let mut p: usize = 0;
    while p < order.len()
        invariant
            is_stable_sort_order(ks, order@),
            ks == deadline_keys(tasks@),
            p <= order.len(),
            time == finish_time(tasks@, order@, p as int),
            time <= p * 0xffff_ffff,
            forall|q: int|
                0 <= q < p ==> done_in_time(
                    #[trigger] tasks@[order@[q] as int],
                    finish_time(tasks@, order@, q + 1),
                ),
        decreases order.len() - p,
    {
        let i = order[p];
        time = time + tasks[i].effort as u128;
        if let Some(dl) = tasks[i].deadline {
            if time > dl as u128 {
                proof {
                    assert forall|o: Seq<usize>| is_stable_sort_order(ks, o) implies !meets_deadlines(
                        tasks@,
                        o,
                    ) by {
                        lemma_stable_sort_order_unique(ks, o, order@);
                        assert(tasks@[o[p as int] as int].deadline == Some(dl));
                    }
                }
                return None;
            }
        }
        p = p + 1;
    }
    Some(order)
}

} // verus!
