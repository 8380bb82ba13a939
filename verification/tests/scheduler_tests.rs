use sabo_os_v3::scheduler::{
    HeapEntry, Priority, ReadyQueue, Scheduler, Task, TaskState, TickOutcome, MAX_QUANTUM_MS,
};
use std::time::{Duration, Instant};

#[test]
fn test_task_creation() {
    let t = Task::new(1, "test_task", Priority::High, 100);
    assert_eq!(t.state, TaskState::Ready);
    assert_eq!(t.remaining_budget(), 100);
    assert!(!t.is_overdue());
}

#[test]
fn test_heap_ordering() {
    let mut heap = ReadyQueue::new();
    heap.push(HeapEntry { priority: Priority::Low.as_u8(), seq: 1, task_id: 10 });
    heap.push(HeapEntry { priority: Priority::RealTime.as_u8(), seq: 2, task_id: 20 });
    heap.push(HeapEntry { priority: Priority::Normal.as_u8(), seq: 3, task_id: 30 });

    let top = heap.pop().unwrap();
    assert_eq!(top.task_id, 20);
}

#[test]
fn test_deadline_miss() {
    let mut t = Task::new(1, "urgent", Priority::RealTime, 50);
    t.deadline = Some(Instant::now() - Duration::from_secs(1));
    assert!(t.is_overdue());
}

#[test]
fn priority_numbers() {
    assert_eq!(Priority::RealTime.as_u8(), 0);
    assert_eq!(Priority::High.as_u8(), 1);
    assert_eq!(Priority::Normal.as_u8(), 2);
    assert_eq!(Priority::Low.as_u8(), 3);
    assert_eq!(Priority::Idle.as_u8(), 4);
}

#[test]
fn remaining_budget_saturates() {
    let mut t = Task::new(7, "t", Priority::Idle, 30);
    t.cpu_used_ms = 12;
    assert_eq!(t.remaining_budget(), 18);
    t.cpu_used_ms = 45;
    assert_eq!(t.remaining_budget(), 0);
}

#[test]
fn future_deadline_is_not_overdue() {
    let t = Task::new(3, "later", Priority::Normal, 10)
        .with_deadline(Instant::now() + Duration::from_secs(3600));
    assert!(t.deadline.is_some());
    assert!(!t.is_overdue());
}

#[test]
fn queue_pops_by_priority_then_arrival() {
    let mut q = ReadyQueue::new();
    q.push(HeapEntry { priority: 2, seq: 1, task_id: 1 });
    q.push(HeapEntry { priority: 1, seq: 2, task_id: 2 });
    q.push(HeapEntry { priority: 2, seq: 3, task_id: 3 });
    q.push(HeapEntry { priority: 1, seq: 4, task_id: 4 });
    q.push(HeapEntry { priority: 0, seq: 5, task_id: 5 });
    assert_eq!(q.len(), 5);
    assert_eq!(q.peek().unwrap().task_id, 5);
    let order: Vec<u64> = (0..5).map(|_| q.pop().unwrap().task_id).collect();
    assert_eq!(order, vec![5, 2, 4, 1, 3]);
    assert!(q.is_empty());
    assert!(q.pop().is_none());
}

#[test]
fn outranks_compares_priority_then_seq() {
    let a = HeapEntry { priority: 0, seq: 9, task_id: 1 };
    let b = HeapEntry { priority: 1, seq: 1, task_id: 2 };
    let c = HeapEntry { priority: 1, seq: 2, task_id: 3 };
    assert!(a.outranks(&b));
    assert!(!b.outranks(&a));
    assert!(b.outranks(&c));
    assert!(!c.outranks(&b));
    assert!(!b.outranks(&b));
}

#[test]
fn ids_are_handed_out_in_order() {
    let mut s = Scheduler::new();
    assert_eq!(s.allocate_id(), 1);
    assert_eq!(s.allocate_id(), 2);
    assert_eq!(s.allocate_id(), 3);
}

#[test]
fn enqueue_makes_task_ready_and_queued() {
    let mut s = Scheduler::new();
    let mut t = Task::new(1, "a", Priority::High, 5);
    t.state = TaskState::Blocked;
    assert_eq!(s.enqueue(t), 1);
    assert_eq!(s.enqueue(Task::new(2, "b", Priority::Low, 5)), 2);
    assert_eq!(s.queue_len(), 2);
    assert_eq!(s.tasks().len(), 2);
    assert_eq!(s.tasks()[0].state, TaskState::Ready);
    assert_eq!(s.tasks()[1].name, "b");
}

#[test]
fn idle_tick_on_empty_queue() {
    let mut s = Scheduler::new();
    assert_eq!(s.dispatch_tick(), TickOutcome::Idle);
}

#[test]
fn tick_runs_most_urgent_for_one_quantum() {
    let mut s = Scheduler::new();
    s.enqueue(Task::new(1, "low", Priority::Low, 100));
    s.enqueue(Task::new(2, "rt", Priority::RealTime, 25));
    assert_eq!(
        s.dispatch_tick(),
        TickOutcome::Ran { task_id: 2, used_ms: MAX_QUANTUM_MS, budget_ms: 25, completed: false }
    );
    assert_eq!(s.tasks()[1].cpu_used_ms, 10);
    assert_eq!(s.tasks()[1].state, TaskState::Ready);
    assert_eq!(s.queue_len(), 2);
    assert_eq!(
        s.dispatch_tick(),
        TickOutcome::Ran { task_id: 2, used_ms: 20, budget_ms: 25, completed: false }
    );
    assert_eq!(
        s.dispatch_tick(),
        TickOutcome::Ran { task_id: 2, used_ms: 25, budget_ms: 25, completed: true }
    );
    assert_eq!(s.tasks()[1].state, TaskState::Completed);
    assert_eq!(s.queue_len(), 1);
    assert_eq!(
        s.dispatch_tick(),
        TickOutcome::Ran { task_id: 1, used_ms: 10, budget_ms: 100, completed: false }
    );
}

#[test]
fn round_robin_within_priority() {
    let mut s = Scheduler::new();
    s.enqueue(Task::new(1, "a", Priority::Normal, 20));
    s.enqueue(Task::new(2, "b", Priority::Normal, 20));
    let mut order = Vec::new();
    for _ in 0..4 {
        match s.dispatch_tick() {
            TickOutcome::Ran { task_id, .. } => order.push(task_id),
            other => panic!("unexpected {:?}", other),
        }
    }
    assert_eq!(order, vec![1, 2, 1, 2]);
    assert_eq!(s.dispatch_tick(), TickOutcome::Idle);
}

#[test]
fn zero_budget_completes_at_once() {
    let mut s = Scheduler::new();
    s.enqueue(Task::new(9, "empty", Priority::High, 0));
    assert_eq!(
        s.dispatch_tick(),
        TickOutcome::Ran { task_id: 9, used_ms: 0, budget_ms: 0, completed: true }
    );
    assert_eq!(s.queue_len(), 0);
}

#[test]
fn cancelled_task_is_discarded_unrun() {
    let mut s = Scheduler::new();
    s.enqueue(Task::new(4, "c", Priority::High, 50));
    assert!(s.cancel(4));
    assert!(!s.cancel(99));
    assert_eq!(s.tasks()[0].state, TaskState::Cancelled);
    assert_eq!(s.dispatch_tick(), TickOutcome::Discarded { task_id: 4 });
    assert_eq!(s.tasks()[0].cpu_used_ms, 0);
    assert_eq!(s.tasks()[0].state, TaskState::Cancelled);
    assert_eq!(s.queue_len(), 0);
}

#[test]
fn overdue_task_completes_unrun() {
    let mut s = Scheduler::new();
    let t = Task::new(5, "late", Priority::High, 50)
        .with_deadline(Instant::now() - Duration::from_secs(1));
    s.enqueue(t);
    assert_eq!(s.dispatch_tick(), TickOutcome::DeadlineMiss { task_id: 5 });
    assert_eq!(s.tasks()[0].state, TaskState::Completed);
    assert_eq!(s.tasks()[0].cpu_used_ms, 0);
    assert_eq!(s.queue_len(), 0);
}

#[test]
fn dispatch_with_takes_the_deadline_answer() {
    let mut s = Scheduler::new();
    s.enqueue(Task::new(1, "x", Priority::Low, 30));
    assert_eq!(s.dispatch_with(true), TickOutcome::DeadlineMiss { task_id: 1 });
    let mut s = Scheduler::new();
    s.enqueue(Task::new(1, "x", Priority::Low, 30));
    assert_eq!(
        s.dispatch_with(false),
        TickOutcome::Ran { task_id: 1, used_ms: 10, budget_ms: 30, completed: false }
    );
}

#[test]
fn find_task_locates_first_match() {
    let mut s = Scheduler::new();
    s.enqueue(Task::new(1, "x", Priority::Low, 30));
    s.enqueue(Task::new(2, "y", Priority::Low, 30));
    s.enqueue(Task::new(1, "z", Priority::Low, 30));
    assert_eq!(s.find_task(1), Some(0));
    assert_eq!(s.find_task(2), Some(1));
    assert_eq!(s.find_task(3), None);
}

#[test]
fn task_clone_keeps_fields() {
    let t = Task::new(11, "copy", Priority::Low, 40)
        .with_deadline(Instant::now() + Duration::from_secs(5));
    let c = t.clone();
    assert_eq!(c.id, 11);
    assert_eq!(c.name, "copy");
    assert_eq!(c.created_at, t.created_at);
    assert_eq!(c.deadline, t.deadline);
    assert_eq!(c.cpu_budget_ms, 40);
}

#[test]
fn overdue_at_compares_reading_with_deadline() {
    let start = Instant::now();
    let deadline = start + Duration::from_secs(10);
    let t = Task::new(12, "timed", Priority::High, 10).with_deadline(deadline);
    assert!(!t.is_overdue_at(&start));
    assert!(!t.is_overdue_at(&deadline));
    assert!(t.is_overdue_at(&(deadline + Duration::from_millis(1))));
    let no_deadline = Task::new(13, "free", Priority::High, 10);
    assert!(!no_deadline.is_overdue_at(&(deadline + Duration::from_secs(1))));
}
