use ternary_scheduling::{
    earliest_deadline_first, schedule_min_weighted_completion, DeadlineScheduler,
    RoundRobinScheduler, Task, TernaryDecision, TernaryPriorityQueue,
};

fn signal(s: TernaryDecision, id: usize) -> Task {
    Task::new(id, "t").with_signal(s)
}

#[test]
fn value_and_from_value_round_trip() {
    for d in [TernaryDecision::Prioritize, TernaryDecision::Defer, TernaryDecision::Neutral] {
        assert_eq!(TernaryDecision::from_value(d.value()), Some(d));
    }
    assert_eq!(TernaryDecision::from_value(2), None);
    assert_eq!(TernaryDecision::from_value(-2), None);
    assert_eq!(TernaryDecision::from_value(i8::MIN), None);
    assert_eq!(TernaryDecision::from_value(i8::MAX), None);
}

#[test]
fn new_task_defaults() {
    let t = Task::new(7, "seven");
    assert_eq!(t.id, 7);
    assert_eq!(t.name, "seven");
    assert_eq!(t.base_priority, 0);
    assert_eq!(t.ternary_signal, TernaryDecision::Neutral);
    assert_eq!(t.deadline, None);
    assert_eq!(t.effort, 1);
    assert_eq!(t.effective_priority(), 0);
}

#[test]
fn effective_priority_at_the_edges() {
    let t = Task::new(1, "t").with_priority(i32::MAX).with_signal(TernaryDecision::Defer);
    assert_eq!(t.effective_priority(), i32::MAX - 1);
    let t = Task::new(1, "t").with_priority(i32::MIN).with_signal(TernaryDecision::Prioritize);
    assert_eq!(t.effective_priority(), i32::MIN + 1);
    let t = Task::new(1, "t").with_priority(-3).with_signal(TernaryDecision::Neutral);
    assert_eq!(t.effective_priority(), -3);
}

#[test]
fn urgency_formula_values() {
    // priority 10, due in 5: 1000 - 5
    assert_eq!(Task::new(1, "a").with_priority(10).with_deadline(10).urgency(5), 995);
    // priority 1, due in 995: 100 - 995
    assert_eq!(Task::new(2, "b").with_priority(1).with_deadline(1000).urgency(5), -895);
    // due far away: the deadline score is capped at 10000
    assert_eq!(Task::new(3, "c").with_priority(2).with_deadline(1_000_000).urgency(0), -9800);
    // no deadline: capped medium urgency
    assert_eq!(Task::new(4, "d").with_priority(2).urgency(123), 200 - 10000);
    // overdue and due right now: the deadline adds nothing
    assert_eq!(Task::new(5, "e").with_priority(3).with_deadline(5).urgency(10), 300);
    assert_eq!(Task::new(6, "f").with_priority(3).with_deadline(10).urgency(10), 300);
    // a signal moves the priority score by 100
    let t = Task::new(7, "g").with_priority(3).with_signal(TernaryDecision::Prioritize);
    assert_eq!(t.urgency(0), 400 - 10000);
}

#[test]
fn urgency_far_deadline_is_capped() {
    // the time left is capped at 10000, however far away the deadline is
    let t = Task::new(1, "far").with_deadline(u64::MAX);
    assert_eq!(t.urgency(0), -10000);
    let overdue = Task::new(2, "due").with_deadline(0);
    assert!(overdue.urgency(1) > t.urgency(1));
}

#[test]
fn overdue_is_most_urgent_for_equal_priority() {
    let now = 500;
    let overdue = Task::new(1, "o").with_priority(4).with_deadline(100);
    let soon = Task::new(2, "s").with_priority(4).with_deadline(501);
    let later = Task::new(3, "l").with_priority(4).with_deadline(20_000);
    let none = Task::new(4, "n").with_priority(4);
    assert!(overdue.urgency(now) >= soon.urgency(now));
    assert!(soon.urgency(now) >= later.urgency(now));
    assert!(later.urgency(now) >= none.urgency(now));
}

#[test]
fn ranks_above_is_the_queue_order() {
    let a = Task::new(1, "a").with_priority(5);
    let b = Task::new(2, "b").with_priority(5);
    let c = Task::new(0, "c").with_priority(4).with_signal(TernaryDecision::Prioritize);
    assert!(a.ranks_above(&b));
    assert!(!b.ranks_above(&a));
    assert!(c.ranks_above(&a));
    assert!(!a.ranks_above(&a));
}

#[test]
fn priority_queue_pop_matches_peek_and_applies_override() {
    let mut pq = TernaryPriorityQueue::default();
    pq.push(Task::new(1, "a").with_priority(2));
    pq.push(Task::new(2, "b").with_priority(9));
    pq.push(Task::new(3, "c").with_priority(9));
    pq.set_signal(2, TernaryDecision::Defer);
    assert_eq!(pq.len(), 3);
    assert_eq!(pq.peek().unwrap().id, 2);
    assert_eq!(pq.peek().unwrap().ternary_signal, TernaryDecision::Neutral);
    let t = pq.pop().unwrap();
    assert_eq!(t.id, 2);
    assert_eq!(t.ternary_signal, TernaryDecision::Defer);
    assert_eq!(pq.len(), 2);
    assert_eq!(pq.pop().unwrap().id, 3);
    assert_eq!(pq.pop().unwrap().id, 1);
    assert!(pq.pop().is_none());
    assert!(pq.peek().is_none());
}

#[test]
fn priority_queue_drain_is_sorted_with_overrides() {
    let mut pq = TernaryPriorityQueue::new();
    pq.push(Task::new(4, "d").with_priority(1));
    pq.push(Task::new(2, "b").with_priority(3).with_signal(TernaryDecision::Defer));
    pq.push(Task::new(3, "c").with_priority(2));
    pq.push(Task::new(1, "a").with_priority(2));
    pq.set_signal(4, TernaryDecision::Prioritize);
    let out = pq.drain_sorted();
    let ids: Vec<usize> = out.iter().map(|t| t.id).collect();
    // effective priorities as pushed: 1, 2, 2, 2; ties by lower id
    assert_eq!(ids, vec![1, 2, 3, 4]);
    assert_eq!(out[3].ternary_signal, TernaryDecision::Prioritize);
    assert!(pq.is_empty());
    // the overrides stay
    pq.push(Task::new(4, "again"));
    assert_eq!(pq.pop().unwrap().ternary_signal, TernaryDecision::Prioritize);
}

#[test]
fn deadline_scheduler_time_and_overdue() {
    let mut ds = DeadlineScheduler::new(10);
    ds.add(Task::new(1, "a").with_deadline(15));
    ds.add(Task::new(2, "b"));
    ds.add(Task::new(3, "c").with_deadline(10));
    assert_eq!(ds.current_time(), 10);
    let ids: Vec<usize> = ds.overdue().iter().map(|t| t.id).collect();
    assert_eq!(ids, vec![3]);
    ds.advance_time(5);
    assert_eq!(ds.current_time(), 15);
    let ids: Vec<usize> = ds.overdue().iter().map(|t| t.id).collect();
    assert_eq!(ids, vec![1, 3]);
    assert!(!ds.is_empty());
    assert_eq!(ds.len(), 3);
}

#[test]
fn deadline_scheduler_by_urgency_is_stable() {
    let mut ds = DeadlineScheduler::new(0);
    ds.add(Task::new(1, "a").with_priority(1));
    ds.add(Task::new(2, "b").with_priority(1).with_deadline(50));
    ds.add(Task::new(3, "c").with_priority(1));
    ds.add(Task::new(4, "d").with_priority(9));
    let ids: Vec<usize> = ds.schedule_by_urgency().iter().map(|t| t.id).collect();
    // urgencies: -9900, 50, -9900, -9100
    assert_eq!(ids, vec![2, 4, 1, 3]);
}

#[test]
fn deadline_scheduler_by_deadline_breaks_ties_by_priority() {
    let mut ds = DeadlineScheduler::new(0);
    ds.add(Task::new(1, "a").with_deadline(30).with_priority(1));
    ds.add(Task::new(2, "b"));
    ds.add(Task::new(3, "c").with_deadline(30).with_priority(5));
    ds.add(Task::new(4, "d").with_deadline(10));
    ds.add(Task::new(5, "e").with_deadline(30).with_priority(1));
    let ids: Vec<usize> = ds.schedule_by_deadline().iter().map(|t| t.id).collect();
    assert_eq!(ids, vec![4, 3, 1, 5, 2]);
}

#[test]
fn deadline_scheduler_remove_takes_first_match() {
    let mut ds = DeadlineScheduler::new(0);
    ds.add(Task::new(1, "first"));
    ds.add(Task::new(2, "other"));
    ds.add(Task::new(1, "second"));
    assert!(ds.remove(9).is_none());
    assert_eq!(ds.len(), 3);
    assert_eq!(ds.remove(1).unwrap().name, "first");
    assert_eq!(ds.remove(1).unwrap().name, "second");
    assert!(ds.remove(1).is_none());
    assert_eq!(ds.len(), 1);
}

#[test]
fn deadline_scheduler_last_decision_wins() {
    let mut ds = DeadlineScheduler::new(0);
    ds.add(Task::new(1, "a"));
    ds.add(Task::new(2, "b"));
    ds.add(Task::new(1, "c"));
    ds.apply_decisions(&[
        (1, TernaryDecision::Prioritize),
        (3, TernaryDecision::Defer),
        (1, TernaryDecision::Defer),
    ]);
    assert_eq!(ds.tasks()[0].ternary_signal, TernaryDecision::Defer);
    assert_eq!(ds.tasks()[1].ternary_signal, TernaryDecision::Neutral);
    assert_eq!(ds.tasks()[2].ternary_signal, TernaryDecision::Defer);
    assert_eq!(ds.tasks()[0].name, "a");
}

#[test]
fn round_robin_weights_three_two_one() {
    let mut rr = RoundRobinScheduler::default();
    for i in 0..4 {
        rr.add(signal(TernaryDecision::Prioritize, 10 + i));
        rr.add(signal(TernaryDecision::Neutral, 20 + i));
        rr.add(signal(TernaryDecision::Defer, 30 + i));
    }
    assert_eq!(rr.len(), 12);
    assert_eq!(rr.prioritize_count(), 4);
    assert_eq!(rr.defer_count(), 4);
    let ids: Vec<usize> = (0..6).map(|_| rr.next().unwrap().id).collect();
    // three prioritize, two neutral, one defer, each queue in arrival order
    assert_eq!(ids, vec![10, 11, 12, 20, 21, 30]);
    assert_eq!(rr.len(), 6);
}

#[test]
fn round_robin_skips_empty_queues() {
    let mut rr = RoundRobinScheduler::new();
    rr.add(signal(TernaryDecision::Defer, 1));
    rr.add(signal(TernaryDecision::Defer, 2));
    rr.add(signal(TernaryDecision::Neutral, 3));
    // slots 0,1,2 find the prioritize queue empty; slot 3 serves neutral
    assert_eq!(rr.next().unwrap().id, 3);
    // slot 4 (neutral) is empty; slot 5 serves defer
    assert_eq!(rr.next().unwrap().id, 1);
    rr.add(signal(TernaryDecision::Prioritize, 4));
    // the cycle has wrapped to slot 0
    assert_eq!(rr.next().unwrap().id, 4);
    assert_eq!(rr.next().unwrap().id, 2);
    assert!(rr.next().is_none());
    assert!(rr.is_empty());
}

#[test]
fn round_robin_defer_not_starved() {
    let mut rr = RoundRobinScheduler::new();
    for i in 0..20 {
        rr.add(signal(TernaryDecision::Prioritize, i));
    }
    rr.add(signal(TernaryDecision::Defer, 99));
    let ids: Vec<usize> = (0..6).map(|_| rr.next().unwrap().id).collect();
    assert!(ids.contains(&99));
}

#[test]
fn min_weighted_completion_keeps_ties_in_order() {
    let tasks = vec![
        Task::new(0, "a").with_priority(2),
        Task::new(1, "b").with_priority(3).with_signal(TernaryDecision::Defer),
        Task::new(2, "c").with_priority(7),
        Task::new(3, "d").with_priority(1).with_signal(TernaryDecision::Prioritize),
    ];
    assert_eq!(schedule_min_weighted_completion(&tasks), vec![2, 0, 1, 3]);
    assert!(schedule_min_weighted_completion(&[]).is_empty());
}

#[test]
fn earliest_deadline_first_boundaries() {
    // finishing exactly at the deadline is on time
    let tasks = vec![
        Task::new(0, "a").with_deadline(10).with_effort(4),
        Task::new(1, "b").with_deadline(4).with_effort(4),
        Task::new(2, "c").with_effort(100),
    ];
    assert_eq!(earliest_deadline_first(&tasks), Some(vec![1, 0, 2]));
    // one unit more and the second task misses
    let tasks = vec![
        Task::new(0, "a").with_deadline(10).with_effort(7),
        Task::new(1, "b").with_deadline(4).with_effort(4),
    ];
    assert_eq!(earliest_deadline_first(&tasks), None);
    // equal deadlines keep their input order
    let tasks = vec![
        Task::new(0, "a").with_deadline(50),
        Task::new(1, "b").with_deadline(50),
    ];
    assert_eq!(earliest_deadline_first(&tasks), Some(vec![0, 1]));
    assert_eq!(earliest_deadline_first(&[]), Some(vec![]));
}

#[test]
fn round_robin_fresh_order_of_signals() {
    let mut rr = RoundRobinScheduler::new();
    for i in 0..3 {
        rr.add(signal(TernaryDecision::Defer, 30 + i));
        rr.add(signal(TernaryDecision::Neutral, 20 + i));
        rr.add(signal(TernaryDecision::Prioritize, 10 + i));
    }
    let signals: Vec<TernaryDecision> = (0..6).map(|_| rr.next().unwrap().ternary_signal).collect();
    assert_eq!(
        signals,
        vec![
            TernaryDecision::Prioritize,
            TernaryDecision::Prioritize,
            TernaryDecision::Prioritize,
            TernaryDecision::Neutral,
            TernaryDecision::Neutral,
            TernaryDecision::Defer,
        ]
    );
}

#[test]
fn round_robin_queued_task_served_despite_adds() {
    let mut rr = RoundRobinScheduler::new();
    rr.add(signal(TernaryDecision::Defer, 1));
    rr.add(signal(TernaryDecision::Defer, 2));
    let mut served_at = Vec::new();
    for call in 0..12 {
        // keep the other queues busy between dispatches
        rr.add(signal(TernaryDecision::Prioritize, 100 + call));
        rr.add(signal(TernaryDecision::Neutral, 200 + call));
        let t = rr.next().unwrap();
        if t.id < 100 {
            served_at.push((t.id, call));
        }
    }
    // the first defer task within 6 calls, the second within 12
    assert_eq!(served_at.len(), 2);
    assert_eq!(served_at[0].0, 1);
    assert!(served_at[0].1 < 6);
    assert_eq!(served_at[1].0, 2);
    assert!(served_at[1].1 < 12);
}

#[test]
fn earliest_deadline_first_none_only_when_nothing_fits() {
    // no order fits: together the two tasks need 8 units by time 7
    let tasks = vec![
        Task::new(0, "a").with_deadline(7).with_effort(4),
        Task::new(1, "b").with_deadline(7).with_effort(4),
    ];
    assert_eq!(earliest_deadline_first(&tasks), None);
    // a task without a deadline never blocks the others
    let tasks = vec![
        Task::new(0, "free").with_effort(1000),
        Task::new(1, "tight").with_deadline(3).with_effort(3),
    ];
    assert_eq!(earliest_deadline_first(&tasks), Some(vec![1, 0]));
}
