use vstd::prelude::*;

use crate::plan::{deadline_keys, done_in_time, finish_time, lemma_deadline_order_ascending, meets_deadlines};
use crate::sorting::{is_stable_sort_order, occurs_in};
use crate::task::Task;

verus! {

/// The total effort of the tasks listed in `s` that `sel` picks.
pub open spec fn effort_of(tasks: Seq<Task>, s: Seq<usize>, sel: spec_fn(usize) -> bool) -> int
    decreases s.len(),
{
    if s.len() == 0 {
        0
    } else {
        effort_of(tasks, s.drop_last(), sel) + (if sel(s.last()) {
            tasks[s.last() as int].effort as int
        } else {
            0
        })
    }
}

/// The indices `0..n` in order.
pub open spec fn all_indices(n: nat) -> Seq<usize> {
    Seq::new(n, |i: int| i as usize)
}

/// The selection that picks every task.
pub open spec fn pick_all() -> spec_fn(usize) -> bool {
    |i: usize| true
}

/// The sum of the efforts of all tasks.
pub open spec fn total_effort(tasks: Seq<Task>) -> int {
    effort_of(tasks, all_indices(tasks.len()), pick_all())
}

/// No index occurs twice in `s`.
pub open spec fn no_repeats(s: Seq<usize>) -> bool {
    forall|p: int, q: int| 0 <= p < q < s.len() ==> s[p] != s[q]
}

/// `order` is a schedule of `n` tasks: it lists every index below `n`
/// exactly once.
pub open spec fn lists_each_index_once(order: Seq<usize>, n: nat) -> bool {
    &&& order.len() == n
    &&& no_repeats(order)
    &&& forall|p: int| 0 <= p < order.len() ==> #[trigger] order[p] < n
    &&& forall|i: int| 0 <= i < n ==> #[trigger] occurs_in(order, i)
}

/// The picked effort of the first `m` tasks of `o` is at most the time they
/// take, and equal to it when all of them are picked.
proof fn lemma_effort_of_prefix_bound(tasks: Seq<Task>, o: Seq<usize>, m: int, sel: spec_fn(usize) -> bool)
    requires
        0 <= m <= o.len(),
    ensures
        effort_of(tasks, o.take(m), sel) <= finish_time(tasks, o, m),
        (forall|q: int| 0 <= q < m ==> #[trigger] sel(o[q])) ==> effort_of(tasks, o.take(m), sel)
            == finish_time(tasks, o, m),
    decreases m,
{
    if m > 0 {
        assert(o.take(m).drop_last() =~= o.take(m - 1));
        lemma_effort_of_prefix_bound(tasks, o, m - 1, sel);
    }
}

/// Tasks that `sel` does not pick add nothing at the end of `s`.
proof fn lemma_effort_of_unpicked_tail(tasks: Seq<Task>, s: Seq<usize>, m: int, sel: spec_fn(usize) -> bool)
    requires
        0 <= m <= s.len(),
        forall|q: int| m <= q < s.len() ==> !sel(#[trigger] s[q]),
    ensures
        effort_of(tasks, s, sel) == effort_of(tasks, s.take(m), sel),
    decreases s.len(),
{
    if s.len() == m {
        assert(s.take(m) =~= s);
    } else {
        assert(!sel(s[s.len() - 1]));
        assert(s.drop_last().take(m) =~= s.take(m));
        lemma_effort_of_unpicked_tail(tasks, s.drop_last(), m, sel);
    }
}

/// Taking one index out of `s` takes its effort out of the sum.
proof fn lemma_effort_of_remove(tasks: Seq<Task>, s: Seq<usize>, r: int, sel: spec_fn(usize) -> bool)
    requires
        0 <= r < s.len(),
    ensures
        effort_of(tasks, s, sel) == effort_of(tasks, s.remove(r), sel) + (if sel(s[r]) {
            tasks[s[r] as int].effort as int
        } else {
            0
        }),
    decreases s.len(),
{
    if r == s.len() - 1 {
        assert(s.remove(r) =~= s.drop_last());
    } else {
        lemma_effort_of_remove(tasks, s.drop_last(), r, sel);
        assert(s.remove(r).drop_last() =~= s.drop_last().remove(r));
        assert(s.remove(r).last() == s.last());
    }
}

/// The sum does not depend on the order: two lists of the same indices,
/// without repeats, have the same picked effort.
proof fn lemma_effort_of_reordered(tasks: Seq<Task>, s1: Seq<usize>, s2: Seq<usize>, sel: spec_fn(usize) -> bool)
    requires
        s1.len() == s2.len(),
        no_repeats(s1),
        no_repeats(s2),
        forall|p: int| 0 <= p < s1.len() ==> #[trigger] occurs_in(s2, s1[p] as int),
    ensures
        effort_of(tasks, s1, sel) == effort_of(tasks, s2, sel),
    decreases s1.len(),
{
    if s1.len() > 0 {
        let n = s1.len() - 1;
        let x = s1[n];
        assert(occurs_in(s2, x as int));
        let r = choose|r: int| 0 <= r < s2.len() && s2[r] == x;
        let t1 = s1.drop_last();
        let t2 = s2.remove(r);
        assert forall|p: int| 0 <= p < t1.len() implies #[trigger] occurs_in(t2, t1[p] as int) by {
            let y = t1[p];
            assert(y == s1[p]);
            assert(occurs_in(s2, s1[p] as int));
            let t = choose|t: int| 0 <= t < s2.len() && s2[t] == y;
            assert(y != x);
            if t < r {
                assert(t2[t] == y);
            } else {
                assert(t2[t - 1] == y);
            }
        }
        assert forall|p: int, q: int| 0 <= p < q < t2.len() implies t2[p] != t2[q] by {
            let pp = if p < r { p } else { p + 1 };
            let qq = if q < r { q } else { q + 1 };
            assert(t2[p] == s2[pp] && t2[q] == s2[qq]);
        }
        lemma_effort_of_reordered(tasks, t1, t2, sel);
        lemma_effort_of_remove(tasks, s2, r, sel);
    }
}

/// Running more tasks takes no less time.
proof fn lemma_finish_time_grows(tasks: Seq<Task>, o: Seq<usize>, a: int, b: int)
    requires
        0 <= a <= b,
    ensures
        finish_time(tasks, o, a) <= finish_time(tasks, o, b),
    decreases b,
{
    if a < b {
        lemma_finish_time_grows(tasks, o, a, b - 1);
    }
}

/// Among the places of `s` that `sel` picks, from `q0` on, there is a last
/// one.
proof fn lemma_last_picked(s: Seq<usize>, sel: spec_fn(usize) -> bool, q0: int)
    requires
        0 <= q0 < s.len(),
        sel(s[q0]),
    ensures
        exists|m: int|
            q0 <= m < s.len() && sel(s[m]) && forall|q: int| m < q < s.len() ==> !sel(#[trigger] s[q]),
    decreases s.len(),
{
    if !sel(s[s.len() - 1]) {
        lemma_last_picked(s.drop_last(), sel, q0);
        let m = choose|m: int|
            q0 <= m < s.drop_last().len() && sel(s.drop_last()[m]) && forall|q: int|
                m < q < s.drop_last().len() ==> !sel(#[trigger] s.drop_last()[q]);
        assert forall|q: int| m < q < s.len() implies !sel(#[trigger] s[q]) by {
            if q < s.len() - 1 {
                assert(s[q] == s.drop_last()[q]);
            }
        }
    } else {
        assert(forall|q: int| s.len() - 1 < q < s.len() ==> !sel(#[trigger] s[q]));
    }
}

/// A stable sort order never repeats an index.
proof fn lemma_sort_order_no_repeats(keys: Seq<(int, int)>, e: Seq<usize>)
    requires
        is_stable_sort_order(keys, e),
    ensures
        no_repeats(e),
{
    assert forall|p: int, q: int| 0 <= p < q < e.len() implies e[p] != e[q] by {
        assert(crate::sorting::goes_before(keys, e[p] as int, e[q] as int));
    }
}

/// The time the first `p + 1` tasks of a schedule take is the effort of
/// exactly those tasks, counted in any list that holds them.
proof fn lemma_prefix_time_as_effort(tasks: Seq<Task>, e: Seq<usize>, p: int, sel: spec_fn(usize) -> bool)
    requires
        no_repeats(e),
        0 <= p < e.len(),
        forall|i: usize| #[trigger] sel(i) <==> exists|q: int| 0 <= q <= p && e[q] == i,
    ensures
        finish_time(tasks, e, p + 1) == effort_of(tasks, e, sel),
{
    assert forall|q: int| 0 <= q < p + 1 implies #[trigger] sel(e[q]) by {
        assert(e[q] == e[q]);
    }
    lemma_effort_of_prefix_bound(tasks, e, p + 1, sel);
    assert forall|q: int| p + 1 <= q < e.len() implies !sel(#[trigger] e[q]) by {
        if sel(e[q]) {
            let q2 = choose|q2: int| 0 <= q2 <= p && e[q2] == e[q];
            assert(e[q2] != e[q]);
        }
    }
    lemma_effort_of_unpicked_tail(tasks, e, p + 1, sel);
}

/// In schedule `o`, the last picked task finishes no earlier than the
/// effort of all picked tasks.
proof fn lemma_last_picked_finishes_late(tasks: Seq<Task>, o: Seq<usize>, r: int, sel: spec_fn(usize) -> bool)
    requires
        0 <= r < o.len(),
        sel(o[r]),
    ensures
        exists|m: int|
            0 <= m < o.len() && sel(#[trigger] o[m]) && effort_of(tasks, o, sel) <= finish_time(
                tasks,
                o,
                m + 1,
            ),
{
    lemma_last_picked(o, sel, r);
    let m = choose|m: int|
        r <= m < o.len() && sel(o[m]) && forall|q: int| m < q < o.len() ==> !sel(#[trigger] o[q]);
    lemma_effort_of_unpicked_tail(tasks, o, m + 1, sel);
    lemma_effort_of_prefix_bound(tasks, o, m + 1, sel);
}

/// However the tasks are ordered, running all of them takes their total
/// effort.
proof fn lemma_full_time_is_total(tasks: Seq<Task>, e: Seq<usize>)
    requires
        tasks.len() <= usize::MAX,
        no_repeats(e),
        e.len() == tasks.len(),
        forall|q: int| 0 <= q < e.len() ==> #[trigger] e[q] < tasks.len(),
    ensures
        finish_time(tasks, e, e.len() as int) == total_effort(tasks),
{
    let n = tasks.len();
    assert(forall|q: int| 0 <= q < n ==> #[trigger] pick_all()(e[q]));
    lemma_effort_of_prefix_bound(tasks, e, n as int, pick_all());
    assert(e.take(n as int) =~= e);
    assert forall|q: int| 0 <= q < e.len() implies #[trigger] occurs_in(all_indices(n), e[q] as int) by {
        assert(all_indices(n)[e[q] as int] == e[q]);
    }
    assert forall|p: int, q: int| 0 <= p < q < all_indices(n).len() implies all_indices(n)[p]
        != all_indices(n)[q] by {
    }
    lemma_effort_of_reordered(tasks, e, all_indices(n), pick_all());
}

/// The task at place `p` of the earliest-deadline order finishes by its
/// deadline whenever some schedule meets every deadline.
proof fn lemma_edf_place_on_time(tasks: Seq<Task>, e: Seq<usize>, o: Seq<usize>, p: int, dl: u64)
    requires
        tasks.len() <= usize::MAX,
        is_stable_sort_order(deadline_keys(tasks), e),
        lists_each_index_once(o, tasks.len()),
        meets_deadlines(tasks, o),
        total_effort(tasks) <= u64::MAX,
        0 <= p < e.len(),
        tasks[e[p] as int].deadline == Some(dl),
    ensures
        finish_time(tasks, e, p + 1) <= dl,
{
    let n = tasks.len();
    let sel = |i: usize| exists|q: int| 0 <= q <= p && e[q] == i;
    lemma_sort_order_no_repeats(deadline_keys(tasks), e);
    lemma_prefix_time_as_effort(tasks, e, p, sel);
    assert forall|q: int| 0 <= q < e.len() implies #[trigger] occurs_in(o, e[q] as int) by {
        assert(e[q] < n);
    }
    lemma_effort_of_reordered(tasks, e, o, sel);
    assert(occurs_in(o, e[p] as int));
    let r = choose|r: int| 0 <= r < o.len() && o[r] == e[p];
    assert(sel(o[r]));
    lemma_last_picked_finishes_late(tasks, o, r, sel);
    let m = choose|m: int|
        0 <= m < o.len() && sel(#[trigger] o[m]) && effort_of(tasks, o, sel) <= finish_time(
            tasks,
            o,
            m + 1,
        );
    let x = o[m];
    let qx = choose|q: int| 0 <= q <= p && e[q] == x;
    lemma_deadline_order_ascending(tasks, e);
    assert(tasks[e[qx] as int].deadline_or_max() <= tasks[e[p] as int].deadline_or_max());
    assert(done_in_time(tasks[o[m] as int], finish_time(tasks, o, m + 1)));
    if tasks[x as int].deadline is None {
        // Then the deadline of e[p] is u64::MAX, which the total effort fits.
        lemma_finish_time_grows(tasks, e, p + 1, n as int);
        lemma_full_time_is_total(tasks, e);
    }
}

/// Earliest deadline first is optimal: if any schedule of the tasks, run back
/// to back from time zero, meets every deadline, the earliest-deadline order
/// does too. So `earliest_deadline_first` answers `None` only when no
/// schedule at all is on time. (Tasks whose efforts sum past `u64::MAX` are
/// left out: there the running time overflows; so are lists longer than
/// memory can hold.)
pub proof fn lemma_edf_is_optimal(tasks: Seq<Task>, e: Seq<usize>, o: Seq<usize>)
    requires
        tasks.len() <= usize::MAX,
        is_stable_sort_order(deadline_keys(tasks), e),
        lists_each_index_once(o, tasks.len()),
        meets_deadlines(tasks, o),
        total_effort(tasks) <= u64::MAX,
    ensures
        meets_deadlines(tasks, e),
{
    assert forall|p: int| 0 <= p < e.len() implies done_in_time(
        #[trigger] tasks[e[p] as int],
        finish_time(tasks, e, p + 1),
    ) by {
        if let Some(dl) = tasks[e[p] as int].deadline {
            lemma_edf_place_on_time(tasks, e, o, p, dl);
        }
    }
}

} // verus!
