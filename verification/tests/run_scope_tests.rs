use std::cell::Cell;

use bounded_scope::dataset::{count, sum};
use bounded_scope::run::{run_scope, settle, TaskOutcome};
use bounded_scope::scope::TaskFailure;

type Task<'a> = &'a dyn Fn(&Vec<usize>) -> TaskOutcome<usize>;

fn length_task(data: &Vec<usize>) -> TaskOutcome<usize> {
    TaskOutcome::Completed(count(data))
}

fn sum_task(data: &Vec<usize>) -> TaskOutcome<usize> {
    match sum(data) {
        Some(all) => TaskOutcome::Completed(all),
        None => TaskOutcome::Failed,
    }
}

#[test]
fn length_and_sum_see_the_same_dataset() {
    let data: Vec<usize> = vec![1, 2, 3];
    let tasks: Vec<Task> = vec![&length_task, &sum_task];
    let result = run_scope(&data, &tasks);
    assert_eq!(result, Ok(vec![3, 6]));
    assert_eq!(data, vec![1, 2, 3]);
}

#[test]
fn every_task_has_completed_on_return() {
    let data: Vec<usize> = vec![4, 5, 6, 7];
    let completed = Cell::new(0usize);
    let mark = |d: &Vec<usize>| {
        completed.set(completed.get() + 1);
        TaskOutcome::Completed(d.len())
    };
    let tasks = vec![&mark, &mark, &mark, &mark, &mark];
    let result = run_scope(&data, &tasks);
    assert_eq!(completed.get(), tasks.len());
    assert_eq!(result, Ok(vec![4, 4, 4, 4, 4]));
}

#[test]
fn dataset_is_intact_after_the_scope() {
    let data: Vec<usize> = vec![9, 8, 7];
    let copy = data.clone();
    let first = |d: &Vec<usize>| TaskOutcome::Completed(d[0]);
    let last = |d: &Vec<usize>| TaskOutcome::Completed(d[d.len() - 1]);
    let tasks: Vec<Task> = vec![&first, &last];
    let result = run_scope(&data, &tasks);
    assert_eq!(result, Ok(vec![9, 7]));
    assert_eq!(data, copy);
}

#[test]
fn one_failure_fails_the_scope_after_all_tasks_ran() {
    let data: Vec<usize> = vec![1, 2, 3];
    let markers = [Cell::new(false), Cell::new(false), Cell::new(false)];
    let before = |d: &Vec<usize>| {
        markers[0].set(true);
        TaskOutcome::Completed(d.len())
    };
    let failing = |_: &Vec<usize>| {
        markers[1].set(true);
        TaskOutcome::Failed
    };
    let after = |d: &Vec<usize>| {
        markers[2].set(true);
        TaskOutcome::Completed(d.len())
    };
    let tasks: Vec<Task> = vec![&before, &failing, &after];
    let result = run_scope(&data, &tasks);
    assert_eq!(result, Err(TaskFailure { task: 1 }));
    assert!(markers[0].get());
    assert!(markers[1].get());
    assert!(markers[2].get());
    assert_eq!(data, vec![1, 2, 3]);
}

#[test]
fn first_of_several_failures_is_reported() {
    let data: Vec<usize> = vec![1];
    let ran = Cell::new(0usize);
    let good = |d: &Vec<usize>| {
        ran.set(ran.get() + 1);
        TaskOutcome::Completed(d[0])
    };
    let bad = |_: &Vec<usize>| {
        ran.set(ran.get() + 1);
        TaskOutcome::Failed
    };
    let tasks: Vec<Task> = vec![&good, &good, &bad, &good, &bad];
    assert_eq!(run_scope(&data, &tasks), Err(TaskFailure { task: 2 }));
    assert_eq!(ran.get(), 5);
}

#[test]
fn failure_of_the_first_and_of_the_last_task() {
    let data: Vec<usize> = vec![1];
    let good = |d: &Vec<usize>| TaskOutcome::Completed(d[0]);
    let bad = |_: &Vec<usize>| TaskOutcome::Failed;
    let first: Vec<Task> = vec![&bad, &good, &good];
    assert_eq!(run_scope(&data, &first), Err(TaskFailure { task: 0 }));
    let last: Vec<Task> = vec![&good, &good, &bad];
    assert_eq!(run_scope(&data, &last), Err(TaskFailure { task: 2 }));
}

#[test]
fn scope_without_tasks_returns_at_once() {
    let data: Vec<usize> = vec![1, 2, 3];
    let tasks: Vec<Task> = Vec::new();
    assert_eq!(run_scope(&data, &tasks), Ok(Vec::new()));
}

#[test]
fn running_twice_gives_the_same_report() {
    let data: Vec<usize> = vec![1, 2, 3];
    let calls = Cell::new(0usize);
    let counted = |d: &Vec<usize>| {
        calls.set(calls.get() + 1);
        length_task(d)
    };
    let tasks: Vec<Task> = vec![&counted, &sum_task];
    let first = run_scope(&data, &tasks);
    assert_eq!(calls.get(), 1);
    let second = run_scope(&data, &tasks);
    assert_eq!(calls.get(), 2);
    assert_eq!(first, Ok(vec![3, 6]));
    assert_eq!(first, second);
    assert_eq!(data, vec![1, 2, 3]);
}

#[test]
fn running_twice_fails_the_same_way() {
    let data: Vec<usize> = vec![usize::MAX, 1];
    let tasks: Vec<Task> = vec![&length_task, &sum_task];
    let first = run_scope(&data, &tasks);
    let second = run_scope(&data, &tasks);
    assert_eq!(first, Err(TaskFailure { task: 1 }));
    assert_eq!(first, second);
}

#[test]
fn tasks_of_another_dataset_type() {
    let data = String::from("shared");
    let length = |d: &String| TaskOutcome::Completed(d.len());
    let tasks = vec![&length, &length];
    assert_eq!(run_scope(&data, &tasks), Ok(vec![6, 6]));
    assert_eq!(data, "shared");
}

#[test]
fn settle_hands_back_all_results_in_order() {
    let outcomes = vec![
        TaskOutcome::Completed(10usize),
        TaskOutcome::Completed(20),
        TaskOutcome::Completed(30),
    ];
    assert_eq!(settle(outcomes), Ok(vec![10, 20, 30]));
}

#[test]
fn settle_reports_the_first_failure() {
    let outcomes = vec![
        TaskOutcome::Completed(10usize),
        TaskOutcome::Failed,
        TaskOutcome::Completed(30),
        TaskOutcome::Failed,
    ];
    assert_eq!(settle(outcomes), Err(TaskFailure { task: 1 }));
}

#[test]
fn settle_of_nothing_succeeds() {
    let outcomes: Vec<TaskOutcome<usize>> = Vec::new();
    assert_eq!(settle(outcomes), Ok(Vec::new()));
}

#[test]
fn settle_agrees_with_run_scope() {
    let data: Vec<usize> = vec![1, 2, 3];
    let bad = |_: &Vec<usize>| TaskOutcome::Failed;
    let tasks: Vec<Task> = vec![&length_task, &bad, &sum_task];
    let outcomes: Vec<TaskOutcome<usize>> = tasks.iter().map(|task| task(&data)).collect();
    assert_eq!(settle(outcomes), run_scope(&data, &tasks));
}
