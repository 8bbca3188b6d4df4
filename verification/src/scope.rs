//! The life cycle of a bounded scope: tasks are started while it is open, its
//! exit waits for every one of them, and only then does it close and report.

use vstd::prelude::*;

verus! {

/// Where a scope stands in its life.
#[derive(Clone, Copy, Debug, PartialEq, Eq, Structural)]
pub enum ScopeState {
    /// Tasks may still be started.
    Open,
    /// Exit has begun; the scope waits for the tasks that still run.
    Draining,
    /// Every task has terminated and the borrow of the dataset is released.
    Closed,
}

/// What is known of one task of a scope.
#[derive(Clone, Copy, Debug, PartialEq, Eq, Structural)]
pub enum TaskStatus {
    /// Started and not yet terminated.
    Running,
    /// Terminated normally.
    Completed,
    /// Terminated abnormally.
    Failed,
}

/// The failure of a scope as a whole: the first of its tasks, in the order in
/// which they were started, that terminated abnormally.
#[derive(Clone, Copy, Debug, PartialEq, Eq, Structural)]
pub struct TaskFailure {
    pub task: usize,
}

/// Why a scope refused an event.
#[derive(Clone, Copy, Debug, PartialEq, Eq, Structural)]
pub enum ScopeError {
    /// The scope has left `Open`: nothing can be started and exit cannot begin again.
    NotOpen,
    /// No task with that number was started.
    UnknownTask,
    /// The task has already terminated.
    NotRunning,
}

/// What can happen to a scope.
#[derive(Clone, Copy, Debug, PartialEq, Eq, Structural)]
pub enum Event {
    /// A task is started.
    Spawn,
    /// The scope's exit point is reached.
    Exit,
    /// A task has terminated, normally or not.
    Finish { task: usize, failed: bool },
}

/// The number of tasks that still run.
pub open spec fn live(tasks: Seq<TaskStatus>) -> nat
    decreases tasks.len(),
{
    if tasks.len() == 0 {
        0
    } else {
        live(tasks.drop_last()) + if tasks.last() == TaskStatus::Running {
            1nat
        } else {
            0nat
        }
    }
}

/// No task has terminated abnormally.
pub open spec fn unfailed(tasks: Seq<TaskStatus>) -> bool {
    forall|i: int| 0 <= i < tasks.len() ==> tasks[i] != TaskStatus::Failed
}

/// Task `k` has terminated abnormally and no task started before it has.
pub open spec fn first_failure(tasks: Seq<TaskStatus>, k: int) -> bool {
    &&& 0 <= k < tasks.len()
    &&& tasks[k] == TaskStatus::Failed
    &&& forall|i: int| 0 <= i < k ==> tasks[i] != TaskStatus::Failed
}

/// The status that a terminated task takes.
pub open spec fn terminal(failed: bool) -> TaskStatus {
    if failed {
        TaskStatus::Failed
    } else {
        TaskStatus::Completed
    }
}

/// A scope as contracts see it: its state and the status of each task, in the
/// order in which the tasks were started.
pub struct ScopeView {
    pub state: ScopeState,
    pub tasks: Seq<TaskStatus>,
}

impl ScopeView {
    /// A scope that has just been entered.
    pub open spec fn fresh() -> ScopeView {
        ScopeView { state: ScopeState::Open, tasks: Seq::empty() }
    }

    /// A closed scope has no running task.
    pub open spec fn wf(self) -> bool {
        self.state == ScopeState::Closed ==> live(self.tasks) == 0
    }

    /// The state after exit has begun with the given tasks: closed as soon as
    /// none of them runs.
    pub open spec fn drained(tasks: Seq<TaskStatus>) -> ScopeState {
        if live(tasks) == 0 {
            ScopeState::Closed
        } else {
            ScopeState::Draining
        }
    }

    /// Whether the scope takes the event in its present state.
    pub open spec fn refusal(self, event: Event) -> Option<ScopeError> {
        match event {
            Event::Spawn | Event::Exit => if self.state == ScopeState::Open {
                None
            } else {
                Some(ScopeError::NotOpen)
            },
            Event::Finish { task, failed } => if task >= self.tasks.len() {
                Some(ScopeError::UnknownTask)
            } else if self.tasks[task as int] != TaskStatus::Running {
                Some(ScopeError::NotRunning)
            } else {
                None
            },
        }
    }

    /// The scope after the event; a refused event changes nothing.
    pub open spec fn after(self, event: Event) -> ScopeView {
        if self.refusal(event).is_some() {
            self
        } else {
            match event {
                Event::Spawn => ScopeView {
                    state: self.state,
                    tasks: self.tasks.push(TaskStatus::Running),
                },
                Event::Exit => ScopeView {
                    state: Self::drained(self.tasks),
                    tasks: self.tasks,
                },
                Event::Finish { task, failed } => {
                    let tasks = self.tasks.update(task as int, terminal(failed));
                    ScopeView {
                        state: if self.state == ScopeState::Open {
                            ScopeState::Open
                        } else {
                            Self::drained(tasks)
                        },
                        tasks,
                    }
                },
            }
        }
    }

    /// The scope after a whole sequence of events, taken in order.
    pub open spec fn run(self, events: Seq<Event>) -> ScopeView
        decreases events.len(),
    {
        if events.len() == 0 {
            self
        } else {
            self.run(events.drop_last()).after(events.last())
        }
    }

    /// What the scope reports to its caller: nothing before it is closed, then
    /// success, or the first task that failed.
    pub open spec fn outcome(self) -> Option<Result<(), TaskFailure>> {
        if self.state != ScopeState::Closed {
            None
        } else if unfailed(self.tasks) {
            Some(Ok(()))
        } else {
            Some(Err(TaskFailure {
                task: (choose|k: int| first_failure(self.tasks, k)) as usize,
            }))
        }
    }
}

/// No more tasks run than were started.
pub proof fn lemma_live_bounded(tasks: Seq<TaskStatus>)
    ensures
        live(tasks) <= tasks.len(),
    decreases tasks.len(),
{
    if tasks.len() > 0 {
        lemma_live_bounded(tasks.drop_last());
    }
}

/// No task runs exactly when every task has terminated.
pub proof fn lemma_live_zero(tasks: Seq<TaskStatus>)
    ensures
        live(tasks) == 0 <==> forall|i: int|
            0 <= i < tasks.len() ==> tasks[i] != TaskStatus::Running,
    decreases tasks.len(),
{
    if tasks.len() > 0 {
        let front = tasks.drop_last();
        lemma_live_zero(front);
        if live(tasks) == 0 {
            assert forall|i: int| 0 <= i < tasks.len() implies tasks[i]
                != TaskStatus::Running by {
                if i < front.len() {
                    assert(front[i] == tasks[i]);
                }
            }
        } else if tasks.last() != TaskStatus::Running {
            let i = choose|i: int| 0 <= i < front.len() && front[i] == TaskStatus::Running;
            assert(tasks[i] == TaskStatus::Running);
        }
    }
}

/// Starting a task adds one to the running tasks.
pub proof fn lemma_live_push(tasks: Seq<TaskStatus>, status: TaskStatus)
    ensures
        live(tasks.push(status)) == live(tasks) + if status == TaskStatus::Running {
            1nat
        } else {
            0nat
        },
{
    assert(tasks.push(status).drop_last() =~= tasks);
}

/// A running task that terminates takes one from the running tasks.
pub proof fn lemma_live_terminate(tasks: Seq<TaskStatus>, task: int, failed: bool)
    requires
        0 <= task < tasks.len(),
        tasks[task] == TaskStatus::Running,
    ensures
        live(tasks.update(task, terminal(failed))) + 1 == live(tasks),
    decreases tasks.len(),
{
    let next = tasks.update(task, terminal(failed));
    if task == tasks.len() - 1 {
        assert(next.drop_last() =~= tasks.drop_last());
    } else {
        assert(next.drop_last() =~= tasks.drop_last().update(task, terminal(failed)));
        lemma_live_terminate(tasks.drop_last(), task, failed);
    }
}

/// At most one task is the first to have failed.
pub proof fn lemma_first_failure_unique(tasks: Seq<TaskStatus>, j: int, k: int)
    requires
        first_failure(tasks, j),
        first_failure(tasks, k),
    ensures
        j == k,
{
    if j < k {
        assert(tasks[j] != TaskStatus::Failed);
    } else if k < j {
        assert(tasks[k] != TaskStatus::Failed);
    }
}

/// A bounded scope: it counts the tasks started in it and lets its caller go
/// on only when all of them have terminated.
pub struct Scope {
    state: ScopeState,
    tasks: Vec<TaskStatus>,
    running: usize,
}

impl View for Scope {
    type V = ScopeView;

    closed spec fn view(&self) -> ScopeView {
        ScopeView { state: self.state, tasks: self.tasks@ }
    }
}

impl Scope {
    /// The scope is consistent: it knows how many of its tasks run, and it is
    /// closed only if none does.
    pub closed spec fn inv(&self) -> bool {
        &&& self.running == live(self.tasks@)
        &&& self@.wf()
    }

    /// Enters a scope: open, with no task.
    pub fn new() -> (scope: Scope)
        ensures
            scope.inv(),
            scope@ == ScopeView::fresh(),
    {
        Scope { state: ScopeState::Open, tasks: Vec::new(), running: 0 }
    }

    /// Starts a task and returns its number, the count of tasks started before
    /// it. Refused with `NotOpen` once exit has begun.
    pub fn spawn(&mut self) -> (result: Result<usize, ScopeError>)
        requires
            old(self).inv(),
        ensures
            final(self).inv(),
            final(self)@ == old(self)@.after(Event::Spawn),
            result == match old(self)@.refusal(Event::Spawn) {
                Some(error) => Err::<usize, ScopeError>(error),
                None => Ok(old(self)@.tasks.len() as usize),
            },
    {
        if self.state != ScopeState::Open {
            return Err(ScopeError::NotOpen);
        }
        proof {
            lemma_live_bounded(self.tasks@);
            lemma_live_push(self.tasks@, TaskStatus::Running);
        }
        self.tasks.push(TaskStatus::Running);
        let started: usize = self.tasks.len();
        self.running = self.running + 1;
        Ok(started - 1)
    }

    /// Begins the scope's exit. From here on nothing can be started; the scope
    /// closes as soon as no task runs. Refused with `NotOpen` if exit has
    /// begun before.
    pub fn exit(&mut self) -> (result: Result<ScopeState, ScopeError>)
        requires
            old(self).inv(),
        ensures
            final(self).inv(),
            final(self)@ == old(self)@.after(Event::Exit),
            result == match old(self)@.refusal(Event::Exit) {
                Some(error) => Err::<ScopeState, ScopeError>(error),
                None => Ok(final(self)@.state),
            },
    {
        if self.state != ScopeState::Open {
            return Err(ScopeError::NotOpen);
        }
        self.state = if self.running == 0 {
            ScopeState::Closed
        } else {
            ScopeState::Draining
        };
        Ok(self.state)
    }

    /// Records that a running task has terminated, abnormally if `failed`. A
    /// draining scope closes when its last running task terminates. Refused
    /// with `UnknownTask` if no such task was started, else with `NotRunning`
    /// if it has terminated before.
    pub fn finish(&mut self, task: usize, failed: bool) -> (result: Result<ScopeState, ScopeError>)
        requires
            old(self).inv(),
        ensures
            final(self).inv(),
            final(self)@ == old(self)@.after(Event::Finish { task, failed }),
            result == match old(self)@.refusal(Event::Finish { task, failed }) {
                Some(error) => Err::<ScopeState, ScopeError>(error),
                None => Ok(final(self)@.state),
            },
    {
        if task >= self.tasks.len() {
            return Err(ScopeError::UnknownTask);
        }
        if self.tasks[task] != TaskStatus::Running {
            return Err(ScopeError::NotRunning);
        }
        proof {
            lemma_live_terminate(self.tasks@, task as int, failed);
        }
        let status = if failed {
            TaskStatus::Failed
        } else {
            TaskStatus::Completed
        };
        self.tasks.set(task, status);
        self.running = self.running - 1;
        if self.state != ScopeState::Open {
            self.state = if self.running == 0 {
                ScopeState::Closed
            } else {
                ScopeState::Draining
            };
        }
        Ok(self.state)
    }

    /// Takes one event: the scope moves to the state that the event leads to
    /// and returns it, or refuses the event and stays as it is.
    pub fn step(&mut self, event: Event) -> (result: Result<ScopeState, ScopeError>)
        requires
            old(self).inv(),
        ensures
            final(self).inv(),
            final(self)@ == old(self)@.after(event),
            result == match old(self)@.refusal(event) {
                Some(error) => Err::<ScopeState, ScopeError>(error),
                None => Ok(final(self)@.state),
            },
    {
        match event {
            Event::Spawn => match self.spawn() {
                Ok(_) => Ok(self.state),
                Err(error) => Err(error),
            },
            Event::Exit => self.exit(),
            Event::Finish { task, failed } => self.finish(task, failed),
        }
    }

    /// What the scope reports: `None` while it is not closed; then `Ok`, or
    /// the first task, in the order of starting, that failed.
    pub fn outcome(&self) -> (result: Option<Result<(), TaskFailure>>)
        requires
            self.inv(),
        ensures
            result == self@.outcome(),
            match result {
                None => self@.state != ScopeState::Closed,
                Some(Ok(())) => self@.state == ScopeState::Closed && unfailed(self@.tasks),
                Some(Err(failure)) => self@.state == ScopeState::Closed && first_failure(
                    self@.tasks,
                    failure.task as int,
                ),
            },
    {
        if self.state != ScopeState::Closed {
            return None;
        }
        let mut i: usize = 0;
        while i < self.tasks.len()
            invariant
                self.state == ScopeState::Closed,
                i <= self.tasks.len(),
                forall|j: int| 0 <= j < i ==> self.tasks@[j] != TaskStatus::Failed,
            decreases self.tasks.len() - i,
        {
            if self.tasks[i] == TaskStatus::Failed {
                proof {
                    assert(first_failure(self.tasks@, i as int));
                    let k = choose|k: int| first_failure(self.tasks@, k);
                    lemma_first_failure_unique(self.tasks@, i as int, k);
                }
                return Some(Err(TaskFailure { task: i }));
            }
            i = i + 1;
        }
        Some(Ok(()))
    }

    /// Where the scope stands in its life.
    pub fn state(&self) -> (state: ScopeState)
        ensures
            state == self@.state,
    {
        self.state
    }

    /// How many tasks have been started in the scope.
    pub fn started(&self) -> (count: usize)
        ensures
            count == self@.tasks.len(),
    {
        self.tasks.len()
    }

    /// How many of the scope's tasks still run.
    pub fn running(&self) -> (count: usize)
        requires
            self.inv(),
        ensures
            count == live(self@.tasks),
    {
        self.running
    }

    /// The status of a task, or `None` if no task with that number was started.
    pub fn status(&self, task: usize) -> (status: Option<TaskStatus>)
        ensures
            status == (if task < self@.tasks.len() {
                Some(self@.tasks[task as int])
            } else {
                None
            }),
    {
        if task < self.tasks.len() {
            Some(self.tasks[task])
        } else {
            None
        }
    }
}

} // verus!
