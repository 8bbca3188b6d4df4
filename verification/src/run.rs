//! Running a fixed set of tasks against one shared, read-only dataset.

use vstd::prelude::*;
use crate::scope::{
    first_failure, lemma_live_zero, unfailed, Scope, ScopeState, TaskFailure, TaskStatus,
};

verus! {

/// How one task ended: with its result, or abnormally.
#[derive(Clone, Copy, Debug, PartialEq, Eq)]
pub enum TaskOutcome<R> {
    Completed(R),
    Failed,
}

/// The status that a scope records for a task that ended with `outcome`.
pub open spec fn status_of<R>(outcome: TaskOutcome<R>) -> TaskStatus {
    match outcome {
        TaskOutcome::Completed(_) => TaskStatus::Completed,
        TaskOutcome::Failed => TaskStatus::Failed,
    }
}

/// The statuses of tasks that ended with `outcomes`, in the same order.
pub open spec fn statuses<R>(outcomes: Seq<TaskOutcome<R>>) -> Seq<TaskStatus> {
    Seq::new(outcomes.len(), |i: int| status_of(outcomes[i]))
}

/// Every task has run on `dataset`, and `outcomes` holds how each one ended.
pub open spec fn joined<D, R, F: Fn(&D) -> TaskOutcome<R>>(
    dataset: &D,
    tasks: Seq<F>,
    outcomes: Seq<TaskOutcome<R>>,
) -> bool {
    &&& outcomes.len() == tasks.len()
    &&& forall|i: int|
        0 <= i < tasks.len() ==> call_ensures(tasks[i], (dataset,), #[trigger] outcomes[i])
}

/// `result` is what a scope reports for tasks that ended with `outcomes`: the
/// results of all of them, in order, if all completed; else the first that failed.
pub open spec fn settled<R>(
    outcomes: Seq<TaskOutcome<R>>,
    result: Result<Vec<R>, TaskFailure>,
) -> bool {
    match result {
        Ok(results) => {
            &&& results@.len() == outcomes.len()
            &&& forall|i: int|
                0 <= i < outcomes.len() ==> #[trigger] outcomes[i] == TaskOutcome::Completed(
                    results@[i],
                )
        },
        Err(failure) => first_failure(statuses(outcomes), failure.task as int),
    }
}

/// Runs every task on the dataset, one after the other on the calling thread,
/// and returns when all of them have ended. The scope is entered, every task
/// is started in it, exit begins, and each task is joined in turn. A failed
/// task does not keep the later ones from running; the scope then fails as a
/// whole, with the first task that failed, and the results of the others are
/// dropped. The tasks only ever see the dataset through a shared reference,
/// so it is the same for all of them and unchanged afterwards.
pub fn run_scope<D, R, F: Fn(&D) -> TaskOutcome<R>>(dataset: &D, tasks: &Vec<F>) -> (result: Result<
    Vec<R>,
    TaskFailure,
>)
    requires
        forall|i: int| 0 <= i < tasks@.len() ==> call_requires(#[trigger] tasks@[i], (dataset,)),
    ensures
        exists|outcomes: Seq<TaskOutcome<R>>|
            joined(dataset, tasks@, outcomes) && settled(outcomes, result),
        match result {
            Ok(results) => {
                &&& results@.len() == tasks@.len()
                &&& forall|i: int|
                    0 <= i < tasks@.len() ==> call_ensures(
                        tasks@[i],
                        (dataset,),
                        TaskOutcome::Completed(#[trigger] results@[i]),
                    )
            },
            Err(failure) => {
                &&& failure.task < tasks@.len()
                &&& call_ensures(tasks@[failure.task as int], (dataset,), TaskOutcome::<R>::Failed)
            },
        },
{
    let mut scope = Scope::new();
    let mut started: usize = 0;
    while started < tasks.len()
        invariant
            started <= tasks.len(),
            scope.inv(),
            scope@.state == ScopeState::Open,
            scope@.tasks == Seq::new(started as nat, |i: int| TaskStatus::Running),
        decreases tasks.len() - started,
    {
        let _ = scope.spawn();
        started = started + 1;
        assert(scope@.tasks =~= Seq::new(started as nat, |i: int| TaskStatus::Running));
    }
    proof {
        lemma_live_zero(scope@.tasks);
        if tasks@.len() > 0 {
            assert(scope@.tasks[0] == TaskStatus::Running);
        }
    }
    let _ = scope.exit();
    let mut results: Vec<R> = Vec::new();
    let ghost mut outcomes: Seq<TaskOutcome<R>> = Seq::empty();
    let mut next: usize = 0;
    while next < tasks.len()
        invariant
            next <= tasks.len(),
            scope.inv(),
            forall|i: int| 0 <= i < tasks@.len() ==> call_requires(#[trigger] tasks@[i], (dataset,)),
            scope@.tasks.len() == tasks@.len(),
            outcomes.len() == next,
            forall|i: int| 0 <= i < next ==> scope@.tasks[i] == status_of(outcomes[i]),
            forall|i: int| next <= i < tasks@.len() ==> scope@.tasks[i] == TaskStatus::Running,
            forall|i: int|
                0 <= i < next ==> call_ensures(tasks@[i], (dataset,), #[trigger] outcomes[i]),
            unfailed(statuses(outcomes)) ==> results@.len() == next && forall|i: int|
                0 <= i < next ==> #[trigger] outcomes[i] == TaskOutcome::Completed(results@[i]),
            scope@.state == if next < tasks@.len() {
                ScopeState::Draining
            } else {
                ScopeState::Closed
            },
        decreases tasks.len() - next,
    {
        let task = &tasks[next];
        let outcome = task(dataset);
        let ghost before = outcomes;
        proof {
            outcomes = outcomes.push(outcome);
            if unfailed(statuses(outcomes)) {
                assert forall|i: int| 0 <= i < before.len() implies statuses(before)[i]
                    != TaskStatus::Failed by {
                    assert(statuses(outcomes)[i] != TaskStatus::Failed);
                }
                assert(statuses(outcomes)[next as int] != TaskStatus::Failed);
            }
        }
        match outcome {
            TaskOutcome::Completed(value) => {
                let _ = scope.finish(next, false);
                results.push(value);
            },
            TaskOutcome::Failed => {
                let _ = scope.finish(next, true);
            },
        }
        next = next + 1;
        proof {
            lemma_live_zero(scope@.tasks);
            if next < tasks@.len() {
                assert(scope@.tasks[next as int] == TaskStatus::Running);
            }
        }
    }
    proof {
        assert(scope@.tasks =~= statuses(outcomes));
        assert(joined(dataset, tasks@, outcomes));
    }
    let result = match scope.outcome() {
        Some(Err(failure)) => Err(failure),
        _ => Ok(results),
    };
    proof {
        assert(settled(outcomes, result));
        match &result {
            Ok(results) => {
                assert forall|i: int| 0 <= i < tasks@.len() implies call_ensures(
                    tasks@[i],
                    (dataset,),
                    TaskOutcome::Completed(#[trigger] results@[i]),
                ) by {
                    assert(outcomes[i] == TaskOutcome::Completed(results@[i]));
                }
            },
            Err(failure) => {
                assert(status_of(outcomes[failure.task as int]) == TaskStatus::Failed);
                assert(outcomes[failure.task as int] == TaskOutcome::<R>::Failed);
            },
        }
    }
    result
}

/// Reports for tasks that have all ended, however they were run: their
/// results in order if all completed, else the first that failed.
pub fn settle<R>(outcomes: Vec<TaskOutcome<R>>) -> (result: Result<Vec<R>, TaskFailure>)
    ensures
        settled(outcomes@, result),
{
    let ghost all = outcomes@;
    let count: usize = outcomes.len();
    let mut results: Vec<R> = Vec::new();
    let mut failure: Option<TaskFailure> = None;
    let mut seen: usize = 0;
    for outcome in it: outcomes
        invariant
            it.seq() == all,
            all.len() == count,
            seen == it.index(),
            match failure {
                Some(first) => {
                    &&& first.task < seen
                    &&& all[first.task as int] == TaskOutcome::<R>::Failed
                    &&& forall|i: int|
                        0 <= i < first.task ==> status_of(#[trigger] all[i]) != TaskStatus::Failed
                },
                None => {
                    &&& results@.len() == seen
                    &&& forall|i: int|
                        0 <= i < seen ==> #[trigger] all[i] == TaskOutcome::Completed(results@[i])
                },
            },
    {
        match outcome {
            TaskOutcome::Completed(value) => {
                if failure.is_none() {
                    results.push(value);
                }
            },
            TaskOutcome::Failed => {
                if failure.is_none() {
                    failure = Some(TaskFailure { task: seen });
                }
            },
        }
        seen = seen + 1;
    }
    match failure {
        Some(first) => {
            assert(first_failure(statuses(all), first.task as int));
            Err(first)
        },
        None => Ok(results),
    }
}

} // verus!
