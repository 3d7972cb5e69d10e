use vstd::prelude::*;

use crate::decision::TernaryDecision;

verus! {

/// The deadline score of a task that has no deadline: `i64::MAX / 2`.
pub const NO_DEADLINE_SCORE: i64 = 4611686018427387903;

/// The cap on the deadline score inside the urgency formula.
pub const DEADLINE_SCORE_CAP: i64 = 10000;

/// How much one step of effective priority weighs in the urgency formula.
pub const PRIORITY_WEIGHT: i64 = 100;

/// A task with priority, deadline, and ternary signal.
#[derive(Debug, Clone, PartialEq, Eq)]
pub struct Task {
    pub id: usize,
    pub name: String,
    pub base_priority: i32,
    pub ternary_signal: TernaryDecision,
    pub deadline: Option<u64>,
    pub effort: u32,
}

/// The smaller of two integers.
pub open spec fn min_int(a: int, b: int) -> int {
    if a <= b {
        a
    } else {
        b
    }
}

impl Task {
    /// Base priority plus the weight of the ternary signal.
    pub open spec fn spec_effective_priority(self) -> int {
        self.base_priority + self.ternary_signal.spec_value()
    }

    /// Whether the effective priority fits the `i32` it is computed in.
    pub open spec fn effective_priority_fits(self) -> bool {
        i32::MIN <= self.spec_effective_priority() <= i32::MAX
    }

    /// The deadline, with a missing one read as `u64::MAX`.
    pub open spec fn deadline_or_max(self) -> int {
        match self.deadline {
            Some(dl) => dl as int,
            None => u64::MAX as int,
        }
    }

    /// The time left before the deadline, as the urgency formula reads it:
    /// zero once it is due, `i64::MAX / 2` when there is none.
    pub open spec fn deadline_score(self, current_time: u64) -> int {
        match self.deadline {
            Some(dl) => if dl > current_time {
                dl - current_time
            } else {
                0
            },
            None => NO_DEADLINE_SCORE as int,
        }
    }

    /// Urgency: `effective_priority * 100 - min(deadline_score, 10000)`.
    pub open spec fn spec_urgency(self, current_time: u64) -> int {
        self.spec_effective_priority() * PRIORITY_WEIGHT - min_int(
            self.deadline_score(current_time),
            DEADLINE_SCORE_CAP as int,
        )
    }

    /// The priority order of tasks: higher effective priority first, and on
    /// a tie the lower id first.
    pub open spec fn spec_ranks_above(self, other: Task) -> bool {
        ||| self.spec_effective_priority() > other.spec_effective_priority()
        ||| (self.spec_effective_priority() == other.spec_effective_priority() && self.id
            < other.id)
    }

    pub fn new(id: usize, name: &str) -> (t: Self)
        ensures
            t.id == id,
            t.name@ == name@,
            t.base_priority == 0,
            t.ternary_signal == TernaryDecision::Neutral,
            t.deadline is None,
            t.effort == 1,
    {
        Task {
            id,
            name: name.to_owned(),
            base_priority: 0,
            ternary_signal: TernaryDecision::Neutral,
            deadline: None,
            effort: 1,
        }
    }

    pub fn with_priority(self, p: i32) -> (t: Self)
        ensures
            t == (Task { base_priority: p, ..self }),
    {
        let mut t = self;
        t.base_priority = p;
        t
    }

    pub fn with_signal(self, s: TernaryDecision) -> (t: Self)
        ensures
            t == (Task { ternary_signal: s, ..self }),
    {
        let mut t = self;
        t.ternary_signal = s;
        t
    }

    pub fn with_deadline(self, d: u64) -> (t: Self)
        ensures
            t == (Task { deadline: Some(d), ..self }),
    {
        let mut t = self;
        t.deadline = Some(d);
        t
    }

    pub fn with_effort(self, e: u32) -> (t: Self)
        ensures
            t == (Task { effort: e, ..self }),
    {
        let mut t = self;
        t.effort = e;
        t
    }

    /// Effective priority combines base priority with ternary signal.
    pub fn effective_priority(&self) -> (p: i32)
        requires
            self.effective_priority_fits(),
        ensures
            p == self.spec_effective_priority(),
    {
        self.base_priority + self.ternary_signal.value() as i32
    }

    /// The effective priority, computed where it cannot overflow.
    pub(crate) fn effective_priority_wide(&self) -> (p: i64)
        ensures
            p == self.spec_effective_priority(),
    {
        self.base_priority as i64 + self.ternary_signal.value() as i64
    }

    /// The deadline score, as the urgency formula reads it.
    fn deadline_score_exec(&self, current_time: u64) -> (s: u64)
        ensures
            s == self.deadline_score(current_time),
    {
        match self.deadline {
            Some(dl) => if dl > current_time {
                dl - current_time
            } else {
                0
            },
            None => NO_DEADLINE_SCORE as u64,
        }
    }

    /// The deadline score capped at 10000.
    fn capped_deadline_score(&self, current_time: u64) -> (c: i64)
        ensures
            c == min_int(self.deadline_score(current_time), DEADLINE_SCORE_CAP as int),
            0 <= c <= DEADLINE_SCORE_CAP,
    {
        let score: u64 = self.deadline_score_exec(current_time);
        if score <= DEADLINE_SCORE_CAP as u64 {
            score as i64
        } else {
            DEADLINE_SCORE_CAP
        }
    }

    /// Urgency score: higher means more urgent.
    /// Factors in effective priority and deadline proximity.
    pub fn urgency(&self, current_time: u64) -> (u: i64)
        requires
            self.effective_priority_fits(),
        ensures
            u == self.spec_urgency(current_time),
    {
        let priority_score: i64 = self.effective_priority() as i64 * PRIORITY_WEIGHT;
        priority_score - self.capped_deadline_score(current_time)
    }

    /// The urgency, computed where it cannot overflow.
    pub(crate) fn urgency_wide(&self, current_time: u64) -> (u: i128)
        ensures
            u == self.spec_urgency(current_time),
    {
        let weight: i128 = PRIORITY_WEIGHT as i128;
        let priority_score: i128 = self.effective_priority_wide() as i128 * weight;
        priority_score - self.capped_deadline_score(current_time) as i128
    }

    /// The deadline, with a missing one read as `u64::MAX`.
    pub(crate) fn deadline_or_max_exec(&self) -> (d: u64)
        ensures
            d == self.deadline_or_max(),
    {
        match self.deadline {
            Some(dl) => dl,
            None => u64::MAX,
        }
    }

    /// The queue order: higher effective priority first, on a tie the lower id first.
    pub fn ranks_above(&self, other: &Task) -> (b: bool)
        ensures
            b == self.spec_ranks_above(*other),
    {
        let a: i64 = self.effective_priority_wide();
        let c: i64 = other.effective_priority_wide();
        a > c || (a == c && self.id < other.id)
    }
}

/// Overdue tasks get the highest urgency: a task past its deadline is at
/// least as urgent as any task of the same effective priority, and its
/// urgency is its effective priority times 100.
pub proof fn lemma_overdue_is_most_urgent(t: Task, u: Task, current_time: u64)
    requires
        t.deadline matches Some(dl) && dl <= current_time,
        u.spec_effective_priority() == t.spec_effective_priority(),
    ensures
        t.spec_urgency(current_time) == t.spec_effective_priority() * 100,
        u.spec_urgency(current_time) <= t.spec_urgency(current_time),
{
}

/// An earlier deadline is at least as urgent: of two tasks with the same
/// effective priority, the one due first has the higher or equal urgency.
pub proof fn lemma_earlier_deadline_more_urgent(t: Task, u: Task, current_time: u64)
    requires
        u.spec_effective_priority() == t.spec_effective_priority(),
        t.deadline matches Some(dt) && u.deadline matches Some(du) && dt <= du,
    ensures
        u.spec_urgency(current_time) <= t.spec_urgency(current_time),
{
}

/// A task without a deadline has medium urgency: its effective priority
/// times 100, less the cap of 10000.
pub proof fn lemma_no_deadline_urgency(t: Task, current_time: u64)
    requires
        t.deadline is None,
    ensures
        t.spec_urgency(current_time) == t.spec_effective_priority() * 100 - 10000,
{
}

/// Of two tasks due at the same time, the one with the higher effective
/// priority is the more urgent.
pub proof fn lemma_higher_priority_more_urgent(t: Task, u: Task, current_time: u64)
    requires
        t.deadline == u.deadline,
        t.spec_effective_priority() >= u.spec_effective_priority(),
    ensures
        u.spec_urgency(current_time) <= t.spec_urgency(current_time),
{
}

/// Urgency by the time left: a task without a deadline, or due more than
/// 10000 after `current_time`, scores its effective priority times 100 less
/// 10000; a task due `d <= 10000` later scores it less `d`; an overdue task
/// scores it in full.
pub proof fn lemma_urgency_by_time_left(t: Task, current_time: u64)
    ensures
        t.deadline is None ==> t.spec_urgency(current_time) == t.spec_effective_priority() * 100
            - 10000,
        t.deadline is Some && t.deadline->0 <= current_time ==> t.spec_urgency(current_time)
            == t.spec_effective_priority() * 100,
        t.deadline is Some && current_time < t.deadline->0 && t.deadline->0 - current_time <= 10000
            ==> t.spec_urgency(current_time) == t.spec_effective_priority() * 100 - (
        t.deadline->0 - current_time),
        t.deadline is Some && t.deadline->0 - current_time > 10000 ==> t.spec_urgency(
            current_time,
        ) == t.spec_effective_priority() * 100 - 10000,
{
}

/// Within the cap, every unit of time left counts: of two tasks with the same
/// effective priority, due at different times no more than 10000 ahead, the
/// one due first is strictly more urgent, by exactly the difference.
pub proof fn lemma_time_left_counts_within_cap(t: Task, u: Task, current_time: u64)
    requires
        u.spec_effective_priority() == t.spec_effective_priority(),
        t.deadline is Some && u.deadline is Some,
        current_time < t.deadline->0 < u.deadline->0 <= current_time + 10000,
    ensures
        u.spec_urgency(current_time) < t.spec_urgency(current_time),
        t.spec_urgency(current_time) - u.spec_urgency(current_time) == u.deadline->0 - t.deadline->0,
{
}

/// The signal moves the base priority by one: up for Prioritize, down for
/// Defer, not at all for Neutral.
pub proof fn lemma_effective_priority_by_signal(t: Task)
    ensures
        t.ternary_signal == TernaryDecision::Prioritize ==> t.spec_effective_priority()
            == t.base_priority + 1,
        t.ternary_signal == TernaryDecision::Defer ==> t.spec_effective_priority() == t.base_priority
            - 1,
        t.ternary_signal == TernaryDecision::Neutral ==> t.spec_effective_priority()
            == t.base_priority,
{
}

/// The queue order: a task outranks another exactly when its effective
/// priority is higher, or equal with a lower id; no task outranks itself.
pub proof fn lemma_ranks_above_order(t: Task, u: Task)
    ensures
        t.spec_ranks_above(u) <==> (t.base_priority + t.ternary_signal.spec_value() > u.base_priority
            + u.ternary_signal.spec_value() || (t.base_priority + t.ternary_signal.spec_value()
            == u.base_priority + u.ternary_signal.spec_value() && t.id < u.id)),
        !t.spec_ranks_above(t),
        t.spec_ranks_above(u) ==> !u.spec_ranks_above(t),
{
}

} // verus!
