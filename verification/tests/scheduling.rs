use ternary_scheduling::{
    earliest_deadline_first, schedule_min_weighted_completion, DeadlineScheduler,
    RoundRobinScheduler, Task, TernaryDecision, TernaryPriorityQueue,
};

#[test]
fn test_ternary_decision_values() {
    assert_eq!(TernaryDecision::Prioritize.value(), 1);
    assert_eq!(TernaryDecision::Defer.value(), -1);
    assert_eq!(TernaryDecision::Neutral.value(), 0);
}

#[test]
fn test_ternary_from_value() {
    assert_eq!(TernaryDecision::from_value(1), Some(TernaryDecision::Prioritize));
    assert_eq!(TernaryDecision::from_value(-1), Some(TernaryDecision::Defer));
    assert_eq!(TernaryDecision::from_value(0), Some(TernaryDecision::Neutral));
    assert_eq!(TernaryDecision::from_value(5), None);
}

#[test]
fn test_task_effective_priority() {
    let t = Task::new(1, "test").with_priority(5).with_signal(TernaryDecision::Prioritize);
    assert_eq!(t.effective_priority(), 6);
}

#[test]
fn test_task_effective_priority_defer() {
    let t = Task::new(1, "test").with_priority(5).with_signal(TernaryDecision::Defer);
    assert_eq!(t.effective_priority(), 4);
}

#[test]
fn test_priority_queue_ordering() {
    let mut pq = TernaryPriorityQueue::new();
    pq.push(Task::new(1, "low").with_priority(1));
    pq.push(Task::new(2, "high").with_priority(10));
    pq.push(Task::new(3, "mid").with_priority(5));

    let tasks = pq.drain_sorted();
    // Higher effective_priority first; on tie, lower id first
    assert_eq!(tasks[0].id, 2); // priority 10
    assert_eq!(tasks[1].id, 3); // priority 5
    assert_eq!(tasks[2].id, 1); // priority 1
}

#[test]
fn test_priority_queue_with_signals() {
    let mut pq = TernaryPriorityQueue::new();
    pq.push(Task::new(1, "a").with_priority(5).with_signal(TernaryDecision::Defer));
    pq.push(Task::new(2, "b").with_priority(3).with_signal(TernaryDecision::Prioritize));

    let tasks = pq.drain_sorted();
    // Task 1: 5-1=4, Task 2: 3+1=4, tied effective priority, lower id first
    assert_eq!(tasks[0].id, 1);
    assert_eq!(tasks[1].id, 2);
}

#[test]
fn test_priority_queue_signal_override() {
    let mut pq = TernaryPriorityQueue::new();
    pq.push(Task::new(1, "a").with_priority(5));
    pq.push(Task::new(2, "b").with_priority(3));
    pq.set_signal(2, TernaryDecision::Prioritize);

    let first = pq.pop().unwrap();
    // The override is applied at pop; the order follows the tasks as pushed
    assert_eq!(first.id, 1); // priority 5 > 3
}

#[test]
fn test_priority_queue_empty() {
    let mut pq = TernaryPriorityQueue::new();
    assert!(pq.is_empty());
    assert!(pq.pop().is_none());
}

#[test]
fn test_deadline_scheduler_overdue() {
    let mut ds = DeadlineScheduler::new(100);
    ds.add(Task::new(1, "late").with_deadline(50));
    ds.add(Task::new(2, "ontime").with_deadline(200));

    let overdue = ds.overdue();
    assert_eq!(overdue.len(), 1);
    assert_eq!(overdue[0].id, 1);
}

#[test]
fn test_deadline_scheduler_schedule_by_deadline() {
    let mut ds = DeadlineScheduler::new(0);
    ds.add(Task::new(1, "late").with_deadline(100));
    ds.add(Task::new(2, "early").with_deadline(10));

    let scheduled = ds.schedule_by_deadline();
    assert_eq!(scheduled[0].id, 2);
    assert_eq!(scheduled[1].id, 1);
}

#[test]
fn test_deadline_scheduler_remove() {
    let mut ds = DeadlineScheduler::new(0);
    ds.add(Task::new(1, "a"));
    ds.add(Task::new(2, "b"));
    let removed = ds.remove(1).unwrap();
    assert_eq!(removed.name, "a");
    assert_eq!(ds.len(), 1);
}

#[test]
fn test_deadline_scheduler_apply_decisions() {
    let mut ds = DeadlineScheduler::new(0);
    ds.add(Task::new(1, "a").with_priority(5));
    ds.apply_decisions(&[(1, TernaryDecision::Prioritize)]);
    assert_eq!(ds.tasks()[0].ternary_signal, TernaryDecision::Prioritize);
}

#[test]
fn test_round_robin_favors_prioritize() {
    let mut rr = RoundRobinScheduler::new();
    rr.add(Task::new(1, "defer").with_signal(TernaryDecision::Defer));
    rr.add(Task::new(2, "prioritize").with_signal(TernaryDecision::Prioritize));

    let first = rr.next().unwrap();
    assert_eq!(first.id, 2);
}

#[test]
fn test_round_robin_all_queues() {
    let mut rr = RoundRobinScheduler::new();
    rr.add(Task::new(1, "p1").with_signal(TernaryDecision::Prioritize));
    rr.add(Task::new(2, "p2").with_signal(TernaryDecision::Prioritize));
    rr.add(Task::new(3, "n1").with_signal(TernaryDecision::Neutral));
    rr.add(Task::new(4, "d1").with_signal(TernaryDecision::Defer));

    let mut ids = Vec::new();
    while let Some(t) = rr.next() {
        ids.push(t.id);
    }
    assert_eq!(ids.len(), 4);
    // Prioritize tasks should come first
    assert!(ids[0] == 1 || ids[0] == 2);
}

#[test]
fn test_round_robin_empty() {
    let mut rr = RoundRobinScheduler::new();
    assert!(rr.is_empty());
    assert!(rr.next().is_none());
}

#[test]
fn test_min_weighted_completion() {
    let tasks = vec![
        Task::new(0, "low").with_priority(1),
        Task::new(1, "high").with_priority(10),
        Task::new(2, "mid").with_priority(5),
    ];
    let order = schedule_min_weighted_completion(&tasks);
    assert_eq!(order[0], 1); // high priority first
}

#[test]
fn test_earliest_deadline_first() {
    let tasks = vec![
        Task::new(0, "late").with_deadline(100).with_effort(10),
        Task::new(1, "early").with_deadline(20).with_effort(10),
    ];
    let order = earliest_deadline_first(&tasks).unwrap();
    assert_eq!(order[0], 1);
    assert_eq!(order[1], 0);
}

#[test]
fn test_earliest_deadline_infeasible() {
    let tasks = vec![Task::new(0, "long").with_deadline(5).with_effort(10)];
    assert!(earliest_deadline_first(&tasks).is_none());
}

#[test]
fn test_earliest_deadline_no_deadlines() {
    let tasks = vec![Task::new(0, "a"), Task::new(1, "b")];
    assert!(earliest_deadline_first(&tasks).is_some());
}

#[test]
fn test_task_urgency() {
    let t1 = Task::new(1, "urgent").with_priority(10).with_deadline(10);
    let t2 = Task::new(2, "relaxed").with_priority(1).with_deadline(1000);
    let u1 = t1.urgency(5);
    let u2 = t2.urgency(5);
    assert!(u1 > u2);
}

#[test]
fn test_task_builder() {
    let t = Task::new(42, "complex")
        .with_priority(7)
        .with_signal(TernaryDecision::Prioritize)
        .with_deadline(100)
        .with_effort(5);
    assert_eq!(t.id, 42);
    assert_eq!(t.name, "complex");
    assert_eq!(t.base_priority, 7);
    assert_eq!(t.ternary_signal, TernaryDecision::Prioritize);
    assert_eq!(t.deadline, Some(100));
    assert_eq!(t.effort, 5);
}
