//! What holds of every scope, whatever it is asked to do.

use vstd::prelude::*;
use crate::run::{joined, settled, status_of, statuses, TaskOutcome};
use crate::scope::{
    lemma_first_failure_unique, lemma_live_zero, live, terminal, unfailed, Event, ScopeState,
    ScopeView, TaskFailure, TaskStatus,
};

verus! {

/// One event keeps a scope consistent: if it is closed afterwards, none of
/// its tasks runs.
pub proof fn lemma_after_keeps_wf(scope: ScopeView, event: Event)
    requires
        scope.wf(),
    ensures
        scope.after(event).wf(),
{
}

/// A scope that has seen any sequence of events since it was entered is
/// closed only if every task started in it has terminated.
pub proof fn lemma_closed_means_all_terminated(events: Seq<Event>)
    ensures
        ({
            let end = ScopeView::fresh().run(events);
            end.state == ScopeState::Closed ==> forall|i: int|
                0 <= i < end.tasks.len() ==> end.tasks[i] != TaskStatus::Running
        }),
{
    lemma_run_keeps_wf(ScopeView::fresh(), events);
    lemma_live_zero(ScopeView::fresh().run(events).tasks);
}

/// Any sequence of events keeps a scope consistent.
pub proof fn lemma_run_keeps_wf(scope: ScopeView, events: Seq<Event>)
    requires
        scope.wf(),
    ensures
        scope.run(events).wf(),
    decreases events.len(),
{
    if events.len() > 0 {
        lemma_run_keeps_wf(scope, events.drop_last());
        lemma_after_keeps_wf(scope.run(events.drop_last()), events.last());
    }
}

/// Once a scope has left `Open` it never returns there, and no event starts
/// another task in it.
pub proof fn lemma_nothing_starts_after_exit(scope: ScopeView, events: Seq<Event>)
    requires
        scope.state != ScopeState::Open,
    ensures
        scope.run(events).state != ScopeState::Open,
        scope.run(events).tasks.len() == scope.tasks.len(),
    decreases events.len(),
{
    if events.len() > 0 {
        lemma_nothing_starts_after_exit(scope, events.drop_last());
    }
}

/// A closed scope refuses every event and stays exactly as it is.
pub proof fn lemma_closed_is_final(scope: ScopeView, events: Seq<Event>)
    requires
        scope.wf(),
        scope.state == ScopeState::Closed,
    ensures
        scope.run(events) == scope,
        forall|event: Event| scope.refusal(event).is_some(),
    decreases events.len(),
{
    lemma_live_zero(scope.tasks);
    if events.len() > 0 {
        lemma_closed_is_final(scope, events.drop_last());
    }
}

/// A task that has terminated keeps its status through every later event.
pub proof fn lemma_terminated_stays(scope: ScopeView, events: Seq<Event>, task: int)
    requires
        0 <= task < scope.tasks.len(),
        scope.tasks[task] != TaskStatus::Running,
    ensures
        task < scope.run(events).tasks.len(),
        scope.run(events).tasks[task] == scope.tasks[task],
    decreases events.len(),
{
    if events.len() > 0 {
        lemma_terminated_stays(scope, events.drop_last(), task);
    }
}

/// If exactly one task failed, the scope fails with that task, and every
/// other task has still run to completion.
pub proof fn lemma_single_failure<R>(
    outcomes: Seq<TaskOutcome<R>>,
    result: Result<Vec<R>, TaskFailure>,
    failed: int,
)
    requires
        settled(outcomes, result),
        0 <= failed < outcomes.len(),
        forall|i: int|
            0 <= i < outcomes.len() ==> (status_of(#[trigger] outcomes[i]) == TaskStatus::Failed
                <==> i == failed),
    ensures
        result matches Err(failure) && failure.task == failed,
        forall|i: int|
            0 <= i < outcomes.len() && i != failed ==> #[trigger] statuses(outcomes)[i]
                == TaskStatus::Completed,
{
    assert(statuses(outcomes)[failed] == TaskStatus::Failed);
    match result {
        Ok(results) => {
            assert(outcomes[failed] == TaskOutcome::Completed(results@[failed]));
        },
        Err(failure) => {
            assert(status_of(outcomes[failure.task as int]) == statuses(outcomes)[failure.task as int]);
        },
    }
}

/// A scope succeeds exactly when every task completed, and then hands back
/// one result for each task.
pub proof fn lemma_success_iff_all_completed<R>(
    outcomes: Seq<TaskOutcome<R>>,
    result: Result<Vec<R>, TaskFailure>,
)
    requires
        settled(outcomes, result),
    ensures
        result.is_ok() <==> unfailed(statuses(outcomes)),
        result matches Ok(results) ==> results@.len() == outcomes.len(),
{
    match result {
        Ok(results) => {
            assert forall|i: int| 0 <= i < outcomes.len() implies statuses(outcomes)[i]
                != TaskStatus::Failed by {
                assert(outcomes[i] == TaskOutcome::Completed(results@[i]));
            }
        },
        Err(failure) => {
            assert(statuses(outcomes)[failure.task as int] == TaskStatus::Failed);
        },
    }
}

/// Running the same tasks on the same dataset again gives the same report,
/// provided each task's outcome is determined by the dataset.
pub proof fn lemma_rerun_same<D, R, F: Fn(&D) -> TaskOutcome<R>>(
    dataset: &D,
    tasks: Seq<F>,
    first: Result<Vec<R>, TaskFailure>,
    second: Result<Vec<R>, TaskFailure>,
)
    requires
        forall|i: int, x: TaskOutcome<R>, y: TaskOutcome<R>|
            0 <= i < tasks.len() && call_ensures(tasks[i], (dataset,), x) && call_ensures(
                tasks[i],
                (dataset,),
                y,
            ) ==> x == y,
        exists|outcomes: Seq<TaskOutcome<R>>|
            joined(dataset, tasks, outcomes) && settled(outcomes, first),
        exists|outcomes: Seq<TaskOutcome<R>>|
            joined(dataset, tasks, outcomes) && settled(outcomes, second),
    ensures
        match (first, second) {
            (Ok(a), Ok(b)) => a@ == b@,
            (Err(a), Err(b)) => a == b,
            _ => false,
        },
{
    let one = choose|outcomes: Seq<TaskOutcome<R>>|
        joined(dataset, tasks, outcomes) && settled(outcomes, first);
    let two = choose|outcomes: Seq<TaskOutcome<R>>|
        joined(dataset, tasks, outcomes) && settled(outcomes, second);
    assert forall|i: int| 0 <= i < tasks.len() implies one[i] == two[i] by {
        assert(call_ensures(tasks[i], (dataset,), one[i]));
        assert(call_ensures(tasks[i], (dataset,), two[i]));
    }
    assert(one =~= two);
    lemma_success_iff_all_completed(one, first);
    lemma_success_iff_all_completed(one, second);
    match (first, second) {
        (Ok(a), Ok(b)) => {
            assert forall|i: int| 0 <= i < a@.len() implies a@[i] == b@[i] by {
                assert(one[i] == TaskOutcome::Completed(a@[i]));
                assert(one[i] == TaskOutcome::Completed(b@[i]));
            }
            assert(a@ =~= b@);
        },
        (Err(a), Err(b)) => {
            lemma_first_failure_unique(statuses(one), a.task as int, b.task as int);
        },
        _ => {},
    }
}

/// Taking two sequences of events one after the other is taking their
/// concatenation.
pub proof fn lemma_run_concat(scope: ScopeView, front: Seq<Event>, back: Seq<Event>)
    ensures
        scope.run(front + back) == scope.run(front).run(back),
    decreases back.len(),
{
    if back.len() == 0 {
        assert(front + back =~= front);
    } else {
        assert((front + back).drop_last() =~= front + back.drop_last());
        assert((front + back).last() == back.last());
        lemma_run_concat(scope, front, back.drop_last());
    }
}

/// `count` tasks are started.
pub open spec fn spawns(count: nat) -> Seq<Event> {
    Seq::new(count, |i: int| Event::Spawn)
}

/// The tasks terminate in the order in which they were started, task `i`
/// abnormally if `failed[i]`.
pub open spec fn finishes(failed: Seq<bool>) -> Seq<Event> {
    Seq::new(failed.len(), |i: int| Event::Finish { task: i as usize, failed: failed[i] })
}

/// The whole life of a scope with one task for each entry of `failed`: all
/// tasks are started, exit begins, and each task is joined in turn.
pub open spec fn life(failed: Seq<bool>) -> Seq<Event> {
    spawns(failed.len()).push(Event::Exit) + finishes(failed)
}

/// The tasks of a scope of which the first `done` have terminated as `failed`
/// says and the others still run.
pub open spec fn progress(failed: Seq<bool>, done: int) -> Seq<TaskStatus> {
    Seq::new(
        failed.len(),
        |i: int|
            if i < done {
                terminal(failed[i])
            } else {
                TaskStatus::Running
            },
    )
}

/// Starting `count` tasks in a fresh scope leaves it open with all of them
/// running.
pub proof fn lemma_spawns(count: nat)
    ensures
        ScopeView::fresh().run(spawns(count)) == (ScopeView {
            state: ScopeState::Open,
            tasks: Seq::new(count, |i: int| TaskStatus::Running),
        }),
    decreases count,
{
    if count == 0 {
        assert(Seq::new(count, |i: int| TaskStatus::Running) =~= Seq::empty());
    } else {
        let fewer = (count - 1) as nat;
        lemma_spawns(fewer);
        assert(spawns(count).drop_last() =~= spawns(fewer));
        assert(Seq::new(fewer, |i: int| TaskStatus::Running).push(TaskStatus::Running) =~= Seq::new(
            count,
            |i: int| TaskStatus::Running,
        ));
    }
}

/// Joining the first `done` tasks of a draining scope, in order, leaves the
/// others running; the scope closes with the last of them.
proof fn lemma_joins(failed: Seq<bool>, done: int)
    requires
        0 <= done <= failed.len() <= usize::MAX,
        failed.len() > 0,
    ensures
        (ScopeView { state: ScopeState::Draining, tasks: progress(failed, 0) }).run(
            finishes(failed).take(done),
        ) == (ScopeView {
            state: if done < failed.len() {
                ScopeState::Draining
            } else {
                ScopeState::Closed
            },
            tasks: progress(failed, done),
        }),
    decreases done,
{
    let start = ScopeView { state: ScopeState::Draining, tasks: progress(failed, 0) };
    if done > 0 {
        let before = done - 1;
        lemma_joins(failed, before);
        assert(finishes(failed).take(done).drop_last() =~= finishes(failed).take(before));
        let middle = start.run(finishes(failed).take(before));
        let event = finishes(failed).take(done).last();
        assert(event == Event::Finish { task: before as usize, failed: failed[before] });
        assert(middle.tasks[before] == TaskStatus::Running);
        assert(middle.tasks.update(before, terminal(failed[before])) =~= progress(failed, done));
        lemma_live_zero(progress(failed, done));
        if done < failed.len() {
            assert(progress(failed, done)[done] == TaskStatus::Running);
        }
    } else {
        assert(finishes(failed).take(0) =~= Seq::<Event>::empty());
    }
}

/// A scope that lives its whole life ends closed, with no task running and
/// every task terminated as it did, whether or not another one failed.
pub proof fn lemma_life_closes(failed: Seq<bool>)
    requires
        failed.len() <= usize::MAX,
    ensures
        ({
            let end = ScopeView::fresh().run(life(failed));
            &&& end.state == ScopeState::Closed
            &&& live(end.tasks) == 0
            &&& end.tasks.len() == failed.len()
            &&& forall|i: int| 0 <= i < failed.len() ==> end.tasks[i] == terminal(failed[i])
        }),
{
    let count = failed.len();
    let started = ScopeView::fresh().run(spawns(count));
    lemma_spawns(count);
    assert(started.tasks =~= progress(failed, 0));
    assert(spawns(count).push(Event::Exit).drop_last() =~= spawns(count));
    let exited = ScopeView::fresh().run(spawns(count).push(Event::Exit));
    assert(exited == started.after(Event::Exit));
    lemma_run_concat(ScopeView::fresh(), spawns(count).push(Event::Exit), finishes(failed));
    lemma_live_zero(started.tasks);
    if count == 0 {
        assert(finishes(failed) =~= Seq::<Event>::empty());
        assert(exited.state == ScopeState::Closed);
    } else {
        assert(started.tasks[0] == TaskStatus::Running);
        assert(exited == (ScopeView { state: ScopeState::Draining, tasks: progress(failed, 0) }));
        lemma_joins(failed, count as int);
        assert(finishes(failed).take(count as int) =~= finishes(failed));
        lemma_live_zero(progress(failed, count as int));
    }
}

} // verus!
