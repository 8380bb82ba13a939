//! A preemptive task scheduler: tasks carry a priority and a CPU budget, a
//! ready queue hands out the most urgent one first (lowest priority number,
//! then first come), and each dispatch tick runs it for one quantum.
use crate::clock::{instant_is_after, instant_later, instant_now};
use std::time::Instant;
use vstd::prelude::*;

verus! {

broadcast use vstd::seq_lib::group_to_multiset_ensures;

/// How urgent a task is: the smaller the number, the more urgent.
#[derive(Debug, Clone, Copy, PartialEq, Eq, Structural)]
pub enum Priority {
    RealTime,
    High,
    Normal,
    Low,
    Idle,
}

impl Priority {
    /// The number of a priority: `RealTime` 0, `High` 1, `Normal` 2, `Low` 3, `Idle` 4.
    pub open spec fn rank(self) -> u8 {
        match self {
            Priority::RealTime => 0,
            Priority::High => 1,
            Priority::Normal => 2,
            Priority::Low => 3,
            Priority::Idle => 4,
        }
    }

    pub fn as_u8(self) -> (r: u8)
        ensures
            r == self.rank(),
    {
        match self {
            Priority::RealTime => 0,
            Priority::High => 1,
            Priority::Normal => 2,
            Priority::Low => 3,
            Priority::Idle => 4,
        }
    }
}

/// Where a task stands in its life.
#[derive(Debug, Clone, Copy, PartialEq, Eq, Structural)]
pub enum TaskState {
    Ready,
    Running,
    Blocked,
    Completed,
    Cancelled,
}

/// The identifier of a task.
pub type TaskId = u64;

/// A task: what it is called, how urgent it is, where it stands, its
/// optional deadline and its CPU budget in milliseconds with what it has
/// used of it.
#[derive(Debug, Clone)]
pub struct Task {
    pub id: TaskId,
    pub name: String,
    pub priority: Priority,
    pub state: TaskState,
    pub created_at: Instant,
    pub deadline: Option<Instant>,
    pub cpu_budget_ms: u64,
    pub cpu_used_ms: u64,
}

/// The CPU time a task has left: its budget less what it used, or 0 once
/// it has used it all.
pub open spec fn remaining_budget_of(t: Task) -> u64 {
    if t.cpu_used_ms <= t.cpu_budget_ms {
        (t.cpu_budget_ms - t.cpu_used_ms) as u64
    } else {
        0
    }
}

/// The longest slice of CPU one dispatch tick grants, in milliseconds.
pub const MAX_QUANTUM_MS: u64 = 10;

/// The slice a tick grants a task: what it has left, at most `MAX_QUANTUM_MS`.
pub open spec fn quantum_of(t: Task) -> u64 {
    if remaining_budget_of(t) < MAX_QUANTUM_MS {
        remaining_budget_of(t)
    } else {
        MAX_QUANTUM_MS
    }
}

impl Task {
    /// A new ready task that has used none of its budget and has no deadline.
    pub fn new(id: TaskId, name: &str, priority: Priority, budget_ms: u64) -> (t: Task)
        ensures
            t.id == id,
            t.name@ == name@,
            t.priority == priority,
            t.state == TaskState::Ready,
            t.deadline is None,
            t.cpu_budget_ms == budget_ms,
            t.cpu_used_ms == 0,
    {
        Task {
            id,
            name: name.to_string(),
            priority,
            state: TaskState::Ready,
            created_at: instant_now(),
            deadline: None,
            cpu_budget_ms: budget_ms,
            cpu_used_ms: 0,
        }
    }

    /// The same task with `deadline` as its deadline.
    pub fn with_deadline(self, deadline: Instant) -> (t: Task)
        ensures
            t == (Task { deadline: Some(deadline), ..self }),
    {
        let mut t = self;
        t.deadline = Some(deadline);
        t
    }

    /// Whether the deadline has passed when the clock reads `now`: never
    /// for a task without one; for one with a deadline, whether `now` is
    /// later than it.
    pub open spec fn overdue_at(self, now: Instant) -> bool {
        match self.deadline {
            Some(dl) => instant_later(now, dl),
            None => false,
        }
    }

    /// Whether the deadline has passed at the clock reading `now`.
    pub fn is_overdue_at(&self, now: &Instant) -> (r: bool)
        ensures
            r == self.overdue_at(*now),
    {
        match &self.deadline {
            Some(dl) => instant_is_after(now, dl),
            None => false,
        }
    }

    /// Whether the deadline has passed now: the clock is read and the task
    /// is judged at that reading. Which reading the clock gives is left open.
    pub fn is_overdue(&self) -> (r: bool)
        ensures
            self.deadline is None ==> !r,
            exists|now: Instant| r == self.overdue_at(now),
    {
        let now = instant_now();
        self.is_overdue_at(&now)
    }

    pub fn remaining_budget(&self) -> (r: u64)
        ensures
            r == remaining_budget_of(*self),
            self.cpu_used_ms <= self.cpu_budget_ms ==> r + self.cpu_used_ms == self.cpu_budget_ms,
            self.cpu_used_ms > self.cpu_budget_ms ==> r == 0,
    {
        self.cpu_budget_ms.saturating_sub(self.cpu_used_ms)
    }
}

/// One entry of the ready queue: a task id with the priority and the arrival
/// number (`seq`) under which it waits.
#[derive(Debug, Clone, Copy)]
pub struct HeapEntry {
    pub priority: u8,
    pub seq: u64,
    pub task_id: u64,
}

/// `a` is dispatched no later than `b`: a smaller priority number, or the
/// same priority and an arrival number no greater.
pub open spec fn precedes(a: HeapEntry, b: HeapEntry) -> bool {
    a.priority < b.priority || (a.priority == b.priority && a.seq <= b.seq)
}

/// `a` is dispatched strictly before `b`.
pub open spec fn outranks(a: HeapEntry, b: HeapEntry) -> bool {
    a.priority < b.priority || (a.priority == b.priority && a.seq < b.seq)
}

/// `e` is in `q` and nothing in `q` is dispatched before it.
pub open spec fn is_most_urgent(e: HeapEntry, q: Seq<HeapEntry>) -> bool {
    &&& q.contains(e)
    &&& forall|i: int| 0 <= i < q.len() ==> precedes(e, #[trigger] q[i])
}

impl HeapEntry {
    pub fn outranks(&self, other: &HeapEntry) -> (r: bool)
        ensures
            r == outranks(*self, *other),
    {
        self.priority < other.priority || (self.priority == other.priority && self.seq < other.seq)
    }
}

/// The ready queue: its entries, most urgent last.
pub struct ReadyQueue {
    entries: Vec<HeapEntry>,
}

impl View for ReadyQueue {
    type V = Seq<HeapEntry>;

    closed spec fn view(&self) -> Seq<HeapEntry> {
        self.entries@
    }
}

/// Every entry is dispatched no earlier than the ones after it.
pub open spec fn urgent_last(q: Seq<HeapEntry>) -> bool {
    forall|i: int, j: int| 0 <= i < j < q.len() ==> precedes(#[trigger] q[j], #[trigger] q[i])
}

impl ReadyQueue {
    /// The queue's invariant: its entries are kept most urgent last.
    pub closed spec fn wf(&self) -> bool {
        urgent_last(self.entries@)
    }

    pub fn new() -> (q: ReadyQueue)
        ensures
            q.wf(),
            q@ == Seq::<HeapEntry>::empty(),
    {
        ReadyQueue { entries: Vec::new() }
    }

    pub fn len(&self) -> (r: usize)
        ensures
            r == self@.len(),
    {
        self.entries.len()
    }

    pub fn is_empty(&self) -> (r: bool)
        ensures
            r == (self@.len() == 0),
    {
        self.entries.len() == 0
    }

    /// Adds an entry; the queue then holds what it held and `e`.
    pub fn push(&mut self, e: HeapEntry)
        requires
            old(self).wf(),
        ensures
            final(self).wf(),
            final(self)@.to_multiset() == old(self)@.to_multiset().insert(e),
            final(self)@.len() == old(self)@.len() + 1,
            exists|p: int| 0 <= p <= old(self)@.len() && final(self)@ == old(self)@.insert(p, e),
    {
        let n = self.entries.len();
        let mut p: usize = 0;
        while p < n && !self.entries[p].outranks(&e)
            invariant
                n == self.entries@.len(),
                p <= n,
                forall|k: int| 0 <= k < p ==> precedes(e, #[trigger] self.entries@[k]),
            decreases n - p,
        {
            p = p + 1;
        }
        let ghost old_q = self.entries@;
        self.entries.insert(p, e);
        proof {
            let q = self.entries@;
            assert(q == old_q.insert(p as int, e));
            assert forall|i: int, j: int| 0 <= i < j < q.len() implies precedes(
                #[trigger] q[j],
                #[trigger] q[i],
            ) by {
                if j < p {
                    assert(q[i] == old_q[i] && q[j] == old_q[j]);
                } else if j == p {
                    assert(q[i] == old_q[i]);
                } else if i < p {
                    assert(q[i] == old_q[i] && q[j] == old_q[j - 1]);
                    assert(precedes(old_q[j - 1], old_q[p as int]));
                } else if i == p {
                    assert(q[j] == old_q[j - 1]);
                    assert(precedes(old_q[j - 1], old_q[p as int]));
                } else {
                    assert(q[i] == old_q[i - 1] && q[j] == old_q[j - 1]);
                }
            }
            assert(self@ == old(self)@.insert(p as int, e));
        }
    }

    /// The entry that `pop` would hand out, if any.
    pub fn peek(&self) -> (r: Option<HeapEntry>)
        requires
            self.wf(),
        ensures
            self@.len() == 0 ==> r is None,
            self@.len() > 0 ==> r == Some(self@.last()) && is_most_urgent(self@.last(), self@),
    {
        let n = self.entries.len();
        if n == 0 {
            None
        } else {
            proof {
                assert(self@.contains(self@[n - 1]));
            }
            Some(self.entries[n - 1])
        }
    }

    /// Removes and returns the most urgent entry, if any.
    pub fn pop(&mut self) -> (r: Option<HeapEntry>)
        requires
            old(self).wf(),
        ensures
            final(self).wf(),
            old(self)@.len() == 0 ==> r is None && final(self)@ == old(self)@,
            old(self)@.len() > 0 ==> {
                &&& r == Some(old(self)@.last())
                &&& is_most_urgent(old(self)@.last(), old(self)@)
                &&& final(self)@ == old(self)@.drop_last()
                &&& final(self)@.to_multiset() == old(self)@.to_multiset().remove(old(self)@.last())
            },
    {
        let ghost old_q = self.entries@;
        let r = self.entries.pop();
        proof {
            if old_q.len() > 0 {
                assert(old_q.contains(old_q[old_q.len() - 1]));
                assert(self.entries@ == old_q.remove(old_q.len() - 1));
            }
        }
        r
    }
}


/// What one dispatch tick did.
#[derive(Debug, Clone, Copy, PartialEq, Eq, Structural)]
pub enum TickOutcome {
    /// The ready queue was empty.
    Idle,
    /// The entry popped named no known task.
    Missing { task_id: TaskId },
    /// The task popped was cancelled and was dropped from the queue.
    Discarded { task_id: TaskId },
    /// The task popped had missed its deadline and was completed unrun.
    DeadlineMiss { task_id: TaskId },
    /// The task popped ran for one quantum; `completed` tells whether its
    /// budget is used up.
    Ran { task_id: TaskId, used_ms: u64, budget_ms: u64, completed: bool },
}

/// Some task in `tasks` has identifier `id`.
pub open spec fn has_id(tasks: Seq<Task>, id: TaskId) -> bool {
    exists|i: int| 0 <= i < tasks.len() && #[trigger] tasks[i].id == id
}

/// `i` is the first position in `tasks` of a task with identifier `id`.
pub open spec fn first_with_id(tasks: Seq<Task>, id: TaskId, i: int) -> bool {
    &&& 0 <= i < tasks.len()
    &&& tasks[i].id == id
    &&& forall|j: int| 0 <= j < i ==> #[trigger] tasks[j].id != id
}

/// The first position in `tasks` of a task with identifier `id` (meaningful
/// when `has_id(tasks, id)`).
pub open spec fn index_of_id(tasks: Seq<Task>, id: TaskId) -> int {
    choose|i: int| first_with_id(tasks, id, i)
}

/// The task store, the ready queue and the two counters that the
/// dispatcher works on.
pub struct Scheduler {
    tasks: Vec<Task>,
    ready: ReadyQueue,
    seq: u64,
    next_id: TaskId,
}

impl Scheduler {
    /// The tasks known to the scheduler, in submission order.
    pub closed spec fn tasks_view(&self) -> Seq<Task> {
        self.tasks@
    }

    /// The ready queue, most urgent entry last.
    pub closed spec fn queue_view(&self) -> Seq<HeapEntry> {
        self.ready@
    }

    /// The last arrival number handed out.
    pub closed spec fn seq_counter(&self) -> u64 {
        self.seq
    }

    /// The identifier the next submission will get.
    pub closed spec fn next_task_id(&self) -> u64 {
        self.next_id
    }

    /// The scheduler's invariant: the queue is kept most urgent last, and
    /// its arrival numbers are distinct and none above the counter.
    pub closed spec fn wf(&self) -> bool {
        &&& self.ready.wf()
        &&& forall|i: int| 0 <= i < self.ready@.len() ==> #[trigger] self.ready@[i].seq <= self.seq
        &&& forall|i: int, j: int|
            0 <= i < self.ready@.len() && 0 <= j < self.ready@.len() && i != j
                ==> #[trigger] self.ready@[i].seq != #[trigger] self.ready@[j].seq
    }

    /// An empty scheduler: no task, an empty queue, arrival counter 0, and
    /// the first identifier to hand out 1.
    pub fn new() -> (s: Scheduler)
        ensures
            s.wf(),
            s.tasks_view() == Seq::<Task>::empty(),
            s.queue_view() == Seq::<HeapEntry>::empty(),
            s.seq_counter() == 0,
            s.next_task_id() == 1,
    {
        Scheduler { tasks: Vec::new(), ready: ReadyQueue::new(), seq: 0, next_id: 1 }
    }

    /// Hands out the next task identifier.
    pub fn allocate_id(&mut self) -> (id: TaskId)
        requires
            old(self).next_task_id() < u64::MAX,
        ensures
            id == old(self).next_task_id(),
            final(self).next_task_id() == id + 1,
            final(self).tasks_view() == old(self).tasks_view(),
            final(self).queue_view() == old(self).queue_view(),
            final(self).seq_counter() == old(self).seq_counter(),
            old(self).wf() ==> final(self).wf(),
    {
        let id = self.next_id;
        self.next_id = self.next_id + 1;
        id
    }

    /// Takes a submitted task in: it becomes ready, joins the task store,
    /// and waits in the queue under its priority and a fresh arrival number.
    /// Returns the length of the queue.
    pub fn enqueue(&mut self, task: Task) -> (queue_len: usize)
        requires
            old(self).wf(),
            old(self).seq_counter() < u64::MAX,
        ensures
            final(self).wf(),
            final(self).seq_counter() == old(self).seq_counter() + 1,
            final(self).next_task_id() == old(self).next_task_id(),
            final(self).tasks_view() == old(self).tasks_view().push(
                Task { state: TaskState::Ready, ..task },
            ),
            final(self).queue_view().to_multiset() == old(self).queue_view().to_multiset().insert(
                HeapEntry {
                    priority: task.priority.rank(),
                    seq: final(self).seq_counter(),
                    task_id: task.id,
                },
            ),
            forall|i: int|
                0 <= i < old(self).queue_view().len() ==> #[trigger] old(
                    self,
                ).queue_view()[i].seq < final(self).seq_counter(),
            final(self).queue_view().len() == old(self).queue_view().len() + 1,
            queue_len == final(self).queue_view().len(),
    {
        let mut task = task;
        self.seq = self.seq + 1;
        let entry = HeapEntry { priority: task.priority.as_u8(), seq: self.seq, task_id: task.id };
        task.state = TaskState::Ready;
        self.tasks.push(task);
        self.push_fresh(entry);
        self.ready.len()
    }

    /// The first position of a task with identifier `id`, if any.
    pub fn find_task(&self, id: TaskId) -> (r: Option<usize>)
        ensures
            match r {
                Some(i) => first_with_id(self.tasks_view(), id, i as int),
                None => !has_id(self.tasks_view(), id),
            },
    {
        let n = self.tasks.len();
        let mut i: usize = 0;
        while i < n
            invariant
                n == self.tasks@.len(),
                i <= n,
                forall|j: int| 0 <= j < i ==> #[trigger] self.tasks@[j].id != id,
            decreases n - i,
        {
            if self.tasks[i].id == id {
                return Some(i);
            }
            i = i + 1;
        }
        None
    }

    /// Marks the first task with identifier `id` cancelled; returns whether
    /// there was one. The queue is left as it is: a cancelled task is
    /// dropped when its entry comes up.
    pub fn cancel(&mut self, id: TaskId) -> (found: bool)
        ensures
            found == has_id(old(self).tasks_view(), id),
            found ==> final(self).tasks_view() == old(self).tasks_view().update(
                index_of_id(old(self).tasks_view(), id),
                Task { state: TaskState::Cancelled, ..old(self).tasks_view()[index_of_id(old(self).tasks_view(), id)] },
            ),
            !found ==> final(self).tasks_view() == old(self).tasks_view(),
            final(self).queue_view() == old(self).queue_view(),
            final(self).seq_counter() == old(self).seq_counter(),
            final(self).next_task_id() == old(self).next_task_id(),
            old(self).wf() ==> final(self).wf(),
    {
        match self.find_task(id) {
            Some(i) => {
                proof {
                    lemma_first_with_id_unique(self.tasks@, id, i as int);
                }
                self.tasks[i].state = TaskState::Cancelled;
                true
            },
            None => false,
        }
    }

    /// The tasks known to the scheduler, in submission order.
    pub fn tasks(&self) -> (r: &[Task])
        ensures
            r@ == self.tasks_view(),
    {
        self.tasks.as_slice()
    }

    /// The last arrival number handed out.
    pub fn arrival_counter(&self) -> (r: u64)
        ensures
            r == self.seq_counter(),
    {
        self.seq
    }

    /// The identifier the next submission will get.
    pub fn upcoming_id(&self) -> (r: TaskId)
        ensures
            r == self.next_task_id(),
    {
        self.next_id
    }

    /// How many entries wait in the ready queue.
    pub fn queue_len(&self) -> (r: usize)
        ensures
            r == self.queue_view().len(),
    {
        self.ready.len()
    }

    /// One dispatch tick, with `overdue` telling whether the task it picks
    /// has missed its deadline.
    pub fn dispatch_with(&mut self, overdue: bool) -> (out: TickOutcome)
        requires
            old(self).wf(),
            old(self).seq_counter() < u64::MAX,
        ensures
            final(self).wf(),
            tick_post(*old(self), *final(self), overdue, out),
            tick_keeps_task_fields(*old(self), *final(self)),
    {
        let ghost pre = *self;
        proof {
            assert forall|o: bool, out2: TickOutcome, post: Scheduler| tick_post(pre, post, o, out2)
                implies tick_keeps_task_fields(pre, post) by {
                lemma_tick_changes_only_run_fields(pre, post, o, out2);
            }
        }
        let popped = self.ready.pop();
        let e = match popped {
            None => {
                return TickOutcome::Idle;
            },
            Some(e) => e,
        };
        proof {
            assert(self.ready@ == pre.ready@.drop_last());
        }
        let i = match self.find_task(e.task_id) {
            None => {
                return TickOutcome::Missing { task_id: e.task_id };
            },
            Some(i) => i,
        };
        proof {
            lemma_first_with_id_unique(self.tasks@, e.task_id, i as int);
        }
        if self.tasks[i].state == TaskState::Cancelled {
            return TickOutcome::Discarded { task_id: e.task_id };
        }
        if overdue {
            self.tasks[i].state = TaskState::Completed;
            return TickOutcome::DeadlineMiss { task_id: e.task_id };
        }
        let quantum = if self.tasks[i].remaining_budget() < MAX_QUANTUM_MS {
            self.tasks[i].remaining_budget()
        } else {
            MAX_QUANTUM_MS
        };
        let used = self.tasks[i].cpu_used_ms + quantum;
        let budget = self.tasks[i].cpu_budget_ms;
        self.tasks[i].cpu_used_ms = used;
        self.tasks[i].state = TaskState::Running;
        proof {
            assert(quantum == quantum_of(pre.tasks@[i as int]));
        }
        if used >= budget {
            self.tasks[i].state = TaskState::Completed;
            proof {
                let t = pre.tasks@[i as int];
                assert(self.tasks@ =~= pre.tasks@.update(
                    i as int,
                    Task { cpu_used_ms: used, state: TaskState::Completed, ..t },
                ));
            }
            TickOutcome::Ran { task_id: e.task_id, used_ms: used, budget_ms: budget, completed: true }
        } else {
            self.tasks[i].state = TaskState::Ready;
            proof {
                let t = pre.tasks@[i as int];
                assert(self.tasks@ =~= pre.tasks@.update(
                    i as int,
                    Task { cpu_used_ms: used, state: TaskState::Ready, ..t },
                ));
            }
            self.seq = self.seq + 1;
            let again = HeapEntry { priority: e.priority, seq: self.seq, task_id: e.task_id };
            self.push_fresh(again);
            TickOutcome::Ran { task_id: e.task_id, used_ms: used, budget_ms: budget, completed: false }
        }
    }

    /// One dispatch tick: looks at the task the queue will hand out, reads
    /// the clock to see whether its deadline has passed, and runs the tick
    /// on that answer: the tick is the one `tick_post` states for the picked
    /// task judged at some clock reading. Which reading that is is left open.
    pub fn dispatch_tick(&mut self) -> (out: TickOutcome)
        requires
            old(self).wf(),
            old(self).seq_counter() < u64::MAX,
        ensures
            final(self).wf(),
            exists|now: Instant|
                tick_post(*old(self), *final(self), picked_overdue_at(*old(self), now), out),
            tick_keeps_task_fields(*old(self), *final(self)),
    {
        let ghost mut now: Instant = arbitrary();
        let overdue = match self.ready.peek() {
            Some(e) => match self.find_task(e.task_id) {
                Some(i) => {
                    proof {
                        lemma_first_with_id_unique(self.tasks@, e.task_id, i as int);
                    }
                    let r = self.tasks[i].is_overdue();
                    proof {
                        now = choose|n: Instant| r == self.tasks@[i as int].overdue_at(n);
                    }
                    r
                },
                None => false,
            },
            None => false,
        };
        proof {
            assert(overdue == picked_overdue_at(*self, now));
        }
        self.dispatch_with(overdue)
    }

    /// Queues an entry whose arrival number is the counter's current value,
    /// which no queued entry carries.
    fn push_fresh(&mut self, entry: HeapEntry)
        requires
            old(self).ready.wf(),
            forall|i: int| 0 <= i < old(self).ready@.len() ==> #[trigger] old(self).ready@[i].seq < old(self).seq,
            forall|i: int, j: int|
                0 <= i < old(self).ready@.len() && 0 <= j < old(self).ready@.len() && i != j
                    ==> #[trigger] old(self).ready@[i].seq != #[trigger] old(self).ready@[j].seq,
            entry.seq == old(self).seq,
        ensures
            final(self).wf(),
            final(self).ready@.to_multiset() == old(self).ready@.to_multiset().insert(entry),
            final(self).ready@.len() == old(self).ready@.len() + 1,
            final(self).tasks@ == old(self).tasks@,
            final(self).seq == old(self).seq,
            final(self).next_id == old(self).next_id,
    {
        let ghost old_q = self.ready@;
        self.ready.push(entry);
        proof {
            let q = self.ready@;
            let p = choose|p: int| 0 <= p <= old_q.len() && q == old_q.insert(p, entry);
            assert forall|k: int| 0 <= k < q.len() implies #[trigger] q[k].seq <= self.seq by {
                if k < p {
                    assert(q[k] == old_q[k]);
                } else if k > p {
                    assert(q[k] == old_q[k - 1]);
                }
            }
            assert forall|i: int, j: int|
                0 <= i < q.len() && 0 <= j < q.len() && i != j
                    implies #[trigger] q[i].seq != #[trigger] q[j].seq by {
                let oi = if i < p { i } else { i - 1 };
                let oj = if j < p { j } else { j - 1 };
                if i != p {
                    assert(q[i] == old_q[oi]);
                }
                if j != p {
                    assert(q[j] == old_q[oj]);
                }
            }
        }
    }
}


/// The task that the next tick picks exists and is past its deadline at
/// the clock reading `now`.
pub open spec fn picked_overdue_at(s: Scheduler, now: Instant) -> bool {
    &&& s.queue_view().len() > 0
    &&& has_id(s.tasks_view(), s.queue_view().last().task_id)
    &&& s.tasks_view()[index_of_id(s.tasks_view(), s.queue_view().last().task_id)].overdue_at(now)
}

/// What one dispatch tick does, given whether the task it picks has missed
/// its deadline: it pops the most urgent entry; an entry that names no task,
/// or a cancelled task, is dropped; a task past its deadline is completed
/// unrun; any other task runs for one quantum, and is completed once its
/// budget is used up, or else queued again under its priority and a fresh
/// arrival number, behind the tasks of that priority already waiting.
pub open spec fn tick_post(pre: Scheduler, post: Scheduler, overdue: bool, out: TickOutcome) -> bool {
    let q = pre.queue_view();
    let ts = pre.tasks_view();
    &&& post.next_task_id() == pre.next_task_id()
    &&& if q.len() == 0 {
        &&& out == TickOutcome::Idle
        &&& post.tasks_view() == ts
        &&& post.queue_view() == q
        &&& post.seq_counter() == pre.seq_counter()
    } else {
        let e = q.last();
        let rest = q.to_multiset().remove(e);
        if !has_id(ts, e.task_id) {
            &&& out == TickOutcome::Missing { task_id: e.task_id }
            &&& post.tasks_view() == ts
            &&& post.queue_view().to_multiset() == rest
            &&& post.seq_counter() == pre.seq_counter()
        } else {
            let i = index_of_id(ts, e.task_id);
            let t = ts[i];
            if t.state == TaskState::Cancelled {
                &&& out == TickOutcome::Discarded { task_id: e.task_id }
                &&& post.tasks_view() == ts
                &&& post.queue_view().to_multiset() == rest
                &&& post.seq_counter() == pre.seq_counter()
            } else if overdue {
                &&& out == TickOutcome::DeadlineMiss { task_id: e.task_id }
                &&& post.tasks_view() == ts.update(i, Task { state: TaskState::Completed, ..t })
                &&& post.queue_view().to_multiset() == rest
                &&& post.seq_counter() == pre.seq_counter()
            } else {
                let used = (t.cpu_used_ms + quantum_of(t)) as u64;
                let done = used >= t.cpu_budget_ms;
                &&& out == TickOutcome::Ran {
                    task_id: e.task_id,
                    used_ms: used,
                    budget_ms: t.cpu_budget_ms,
                    completed: done,
                }
                &&& post.tasks_view() == ts.update(
                    i,
                    Task {
                        cpu_used_ms: used,
                        state: if done {
                            TaskState::Completed
                        } else {
                            TaskState::Ready
                        },
                        ..t
                    },
                )
                &&& if done {
                    &&& post.queue_view().to_multiset() == rest
                    &&& post.seq_counter() == pre.seq_counter()
                } else {
                    &&& post.seq_counter() == pre.seq_counter() + 1
                    &&& post.queue_view().to_multiset() == rest.insert(
                        HeapEntry {
                            priority: e.priority,
                            seq: post.seq_counter(),
                            task_id: e.task_id,
                        },
                    )
                }
            }
        }
    }
}

/// Dispatch order: the entry a tick pops is dispatched strictly before every
/// other queued entry, i.e. it has the smallest priority number, and among
/// entries of that priority the smallest arrival number.
pub proof fn lemma_next_is_strictly_most_urgent(s: Scheduler)
    requires
        s.wf(),
        s.queue_view().len() > 0,
    ensures
        is_most_urgent(s.queue_view().last(), s.queue_view()),
        forall|k: int|
            0 <= k < s.queue_view().len() - 1 ==> outranks(
                s.queue_view().last(),
                #[trigger] s.queue_view()[k],
            ),
{
    let q = s.queue_view();
    assert(q.contains(q[q.len() - 1]));
    assert forall|k: int| 0 <= k < q.len() implies precedes(q.last(), #[trigger] q[k]) by {
        if k < q.len() - 1 {
            assert(precedes(q[q.len() - 1], q[k]));
        }
    }
    assert forall|k: int| 0 <= k < q.len() - 1 implies outranks(q.last(), #[trigger] q[k]) by {
        assert(precedes(q[q.len() - 1], q[k]));
        assert(q[q.len() - 1].seq != q[k].seq);
    }
}

/// First come, first served within a priority: of two queued entries of the
/// same priority, the later arrival is not dispatched while the earlier one
/// waits.
pub proof fn lemma_fifo_within_priority(s: Scheduler, early: HeapEntry, late: HeapEntry)
    requires
        s.wf(),
        s.queue_view().contains(early),
        s.queue_view().contains(late),
        early.priority == late.priority,
        early.seq < late.seq,
    ensures
        s.queue_view().last() != late,
{
    let q = s.queue_view();
    let k = choose|k: int| 0 <= k < q.len() && q[k] == early;
    if k < q.len() - 1 {
        assert(precedes(q[q.len() - 1], q[k]));
    }
}

/// A more urgent priority goes first: while an entry of a smaller priority
/// number waits, no entry of a larger one is dispatched.
pub proof fn lemma_priority_first(s: Scheduler, urgent: HeapEntry, other: HeapEntry)
    requires
        s.wf(),
        s.queue_view().contains(urgent),
        s.queue_view().contains(other),
        urgent.priority < other.priority,
    ensures
        s.queue_view().last() != other,
{
    let q = s.queue_view();
    let k = choose|k: int| 0 <= k < q.len() && q[k] == urgent;
    if k < q.len() - 1 {
        assert(precedes(q[q.len() - 1], q[k]));
    }
}

/// Round robin within a priority: a task that a tick runs without completing
/// is queued again behind every entry already waiting, so every other
/// waiting task of its priority is dispatched before it runs again.
pub proof fn lemma_requeued_goes_last_in_band(
    pre: Scheduler,
    post: Scheduler,
    overdue: bool,
    out: TickOutcome,
)
    requires
        pre.wf(),
        post.wf(),
        tick_post(pre, post, overdue, out),
        out matches TickOutcome::Ran { completed, .. } && !completed,
    ensures
        ({
            let e = pre.queue_view().last();
            let again = HeapEntry { priority: e.priority, seq: post.seq_counter(), task_id: e.task_id };
            &&& post.queue_view().contains(again)
            &&& forall|k: int|
                0 <= k < post.queue_view().len() && post.queue_view()[k] != again
                    ==> #[trigger] post.queue_view()[k].seq < again.seq
            &&& forall|k: int|
                0 <= k < post.queue_view().len() && post.queue_view()[k] != again
                    && post.queue_view()[k].priority == again.priority
                    ==> outranks(#[trigger] post.queue_view()[k], again)
        }),
{
    let q = pre.queue_view();
    let e = q.last();
    let again = HeapEntry { priority: e.priority, seq: post.seq_counter(), task_id: e.task_id };
    let p = post.queue_view();
    assert(p.to_multiset().count(again) > 0);
    assert(p.contains(again));
    assert forall|k: int| 0 <= k < p.len() && p[k] != again implies #[trigger] p[k].seq < again.seq by {
        let w = choose|w: int| 0 <= w < p.len() && p[w] == again;
        assert(w != k);
        assert(p[w].seq == again.seq);
        assert(p[k].seq <= post.seq_counter());
    }
    assert forall|k: int|
        0 <= k < p.len() && p[k] != again && p[k].priority == again.priority implies outranks(
        #[trigger] p[k],
        again,
    ) by {
        let w = choose|w: int| 0 <= w < p.len() && p[w] == again;
        assert(w != k);
        assert(p[k].seq <= post.seq_counter());
    }
}

/// A tick keeps every task in its place and every field of every task but
/// the CPU time used and the state: identifier, name, priority, creation
/// time, deadline and budget all stay as they were.
pub open spec fn tick_keeps_task_fields(pre: Scheduler, post: Scheduler) -> bool {
    &&& post.tasks_view().len() == pre.tasks_view().len()
    &&& forall|k: int|
        0 <= k < pre.tasks_view().len() ==> {
            &&& (#[trigger] post.tasks_view()[k]).id == pre.tasks_view()[k].id
            &&& post.tasks_view()[k].name == pre.tasks_view()[k].name
            &&& post.tasks_view()[k].priority == pre.tasks_view()[k].priority
            &&& post.tasks_view()[k].created_at == pre.tasks_view()[k].created_at
            &&& post.tasks_view()[k].deadline == pre.tasks_view()[k].deadline
            &&& post.tasks_view()[k].cpu_budget_ms == pre.tasks_view()[k].cpu_budget_ms
        }
}

/// A tick changes only the CPU time used and the state of the one task it
/// picks: every other task is left exactly as it was, the picked task keeps
/// its identifier, name, priority, creation time, deadline and budget, and
/// its CPU time grows by at most `MAX_QUANTUM_MS` and never past its budget
/// when it was within it.
pub proof fn lemma_tick_changes_only_run_fields(
    pre: Scheduler,
    post: Scheduler,
    overdue: bool,
    out: TickOutcome,
)
    requires
        tick_post(pre, post, overdue, out),
    ensures
        tick_keeps_task_fields(pre, post),
        forall|k: int|
            0 <= k < pre.tasks_view().len() ==> {
                &&& pre.tasks_view()[k].cpu_used_ms <= (#[trigger] post.tasks_view()[k]).cpu_used_ms
                &&& post.tasks_view()[k].cpu_used_ms <= pre.tasks_view()[k].cpu_used_ms + MAX_QUANTUM_MS
                &&& pre.tasks_view()[k].cpu_used_ms <= pre.tasks_view()[k].cpu_budget_ms
                    ==> post.tasks_view()[k].cpu_used_ms <= post.tasks_view()[k].cpu_budget_ms
            },
        forall|k: int|
            0 <= k < pre.tasks_view().len() && (pre.queue_view().len() == 0
                || pre.tasks_view()[k].id != pre.queue_view().last().task_id)
                ==> #[trigger] post.tasks_view()[k] == pre.tasks_view()[k],
{
    let q = pre.queue_view();
    if q.len() > 0 && has_id(pre.tasks_view(), q.last().task_id) {
        lemma_first_with_id_exists(pre.tasks_view(), q.last().task_id);
    }
}

/// The CPU accounting of a task: what is left and what is used add up to
/// the budget while the budget holds, nothing is left once it is used up,
/// and a slice is what is left but at most `MAX_QUANTUM_MS`.
pub proof fn lemma_budget_accounting(t: Task)
    ensures
        t.cpu_used_ms <= t.cpu_budget_ms ==> remaining_budget_of(t) + t.cpu_used_ms == t.cpu_budget_ms,
        t.cpu_used_ms > t.cpu_budget_ms ==> remaining_budget_of(t) == 0,
        t.cpu_used_ms <= t.cpu_budget_ms && t.cpu_budget_ms - t.cpu_used_ms < MAX_QUANTUM_MS
            ==> quantum_of(t) == t.cpu_budget_ms - t.cpu_used_ms,
        t.cpu_used_ms <= t.cpu_budget_ms && t.cpu_budget_ms - t.cpu_used_ms >= MAX_QUANTUM_MS
            ==> quantum_of(t) == MAX_QUANTUM_MS,
        t.cpu_used_ms > t.cpu_budget_ms ==> quantum_of(t) == 0,
{
}

/// A slice never takes a task past its budget, grants at most
/// `MAX_QUANTUM_MS`, and grants exactly `MAX_QUANTUM_MS` to a task that it
/// does not complete.
pub proof fn lemma_quantum_within_budget(t: Task)
    ensures
        quantum_of(t) <= MAX_QUANTUM_MS,
        t.cpu_used_ms <= t.cpu_budget_ms ==> t.cpu_used_ms + quantum_of(t) <= t.cpu_budget_ms,
        t.cpu_used_ms + quantum_of(t) < t.cpu_budget_ms ==> quantum_of(t) == MAX_QUANTUM_MS,
{
}

/// The number of slices a task still needs: one for a task with nothing
/// left, else its remaining budget divided by the quantum, rounded up.
pub open spec fn slices_needed(t: Task) -> nat {
    if t.cpu_used_ms >= t.cpu_budget_ms {
        1
    } else {
        ((t.cpu_budget_ms - t.cpu_used_ms + MAX_QUANTUM_MS - 1) / (MAX_QUANTUM_MS as int)) as nat
    }
}

/// Every run brings a task one slice closer to completion: a run completes
/// the task exactly when it needed one slice, and otherwise leaves it
/// needing one slice fewer. So a task that is neither cancelled nor late
/// completes after `slices_needed` runs.
pub proof fn lemma_run_progress(t: Task)
    ensures
        ({
            let used = t.cpu_used_ms + quantum_of(t);
            let after = Task { cpu_used_ms: used as u64, ..t };
            &&& (used >= t.cpu_budget_ms) == (slices_needed(t) == 1)
            &&& used < t.cpu_budget_ms ==> slices_needed(after) + 1 == slices_needed(t)
        }),
{
}

/// A tick never touches a cancelled task, and never adds or removes a task.
pub proof fn lemma_tick_spares_cancelled(
    pre: Scheduler,
    post: Scheduler,
    overdue: bool,
    out: TickOutcome,
)
    requires
        tick_post(pre, post, overdue, out),
    ensures
        post.tasks_view().len() == pre.tasks_view().len(),
        forall|k: int|
            0 <= k < pre.tasks_view().len() && pre.tasks_view()[k].state == TaskState::Cancelled
                ==> #[trigger] post.tasks_view()[k] == pre.tasks_view()[k],
{
    let q = pre.queue_view();
    if q.len() > 0 && has_id(pre.tasks_view(), q.last().task_id) {
        lemma_first_with_id_exists(pre.tasks_view(), q.last().task_id);
    }
}

/// A tick never lengthens the queue: it removes the entry it pops and puts
/// back at most one entry, for a task it did not complete.
pub proof fn lemma_tick_never_grows_queue(
    pre: Scheduler,
    post: Scheduler,
    overdue: bool,
    out: TickOutcome,
)
    requires
        tick_post(pre, post, overdue, out),
    ensures
        post.queue_view().len() <= pre.queue_view().len(),
        pre.queue_view().len() > 0 ==> ((out matches TickOutcome::Ran { completed, .. }
            && !completed) <==> post.queue_view().len() == pre.queue_view().len()),
{
    let q = pre.queue_view();
    if q.len() > 0 {
        assert(q.to_multiset().count(q.last()) > 0) by {
            assert(q.contains(q[q.len() - 1]));
        }
        assert(post.queue_view().to_multiset().len() == post.queue_view().len());
    }
}

/// An identifier that occurs has a first position.
pub proof fn lemma_first_with_id_exists(tasks: Seq<Task>, id: TaskId)
    requires
        has_id(tasks, id),
    ensures
        first_with_id(tasks, id, index_of_id(tasks, id)),
    decreases tasks.len(),
{
    let init = tasks.drop_last();
    if has_id(init, id) {
        lemma_first_with_id_exists(init, id);
        let k = index_of_id(init, id);
        assert(first_with_id(tasks, id, k)) by {
            assert forall|j: int| 0 <= j < k implies #[trigger] tasks[j].id != id by {
                assert(tasks[j] == init[j]);
            }
            assert(tasks[k] == init[k]);
        }
    } else {
        let k = (tasks.len() - 1) as int;
        let w = choose|i: int| 0 <= i < tasks.len() && #[trigger] tasks[i].id == id;
        if w < k {
            assert(init[w] == tasks[w]);
        }
        assert(first_with_id(tasks, id, k)) by {
            assert forall|j: int| 0 <= j < k implies #[trigger] tasks[j].id != id by {
                assert(tasks[j] == init[j]);
            }
        }
    }
}

/// The first position of an identifier is the one `index_of_id` names.
pub proof fn lemma_first_with_id_unique(tasks: Seq<Task>, id: TaskId, i: int)
    requires
        first_with_id(tasks, id, i),
    ensures
        has_id(tasks, id),
        index_of_id(tasks, id) == i,
{
    let k = index_of_id(tasks, id);
    assert(first_with_id(tasks, id, k));
    if k < i {
        assert(tasks[k].id != id);
    } else if k > i {
        assert(tasks[i].id != id);
    }
}

} // verus!
