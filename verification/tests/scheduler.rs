//! End-to-end scenarios on the in-memory registry and problem store.

use task_dispatch::errors::TaskError;
use task_dispatch::problem_generator::{Problem, ProblemGenerator, Solution};
use task_dispatch::task_manager::{TaskManager, TaskStatus};

fn registry_with_problems(n: u64) -> TaskManager {
    let mut store = ProblemGenerator::new();
    for _ in 0..n {
        store.generate_problem();
    }
    TaskManager::new(store)
}

#[test]
fn happy_path_one_problem() {
    let mut tm = registry_with_problems(1);
    let task = tm.assign_task(0).expect("one unsolved problem must be handed out");
    assert_eq!(task.problem, Problem { x: 0 });
    assert_eq!(task.id.len(), 36);
    assert_eq!(
        task.status,
        TaskStatus::Assigned { last_heartbeat: 0, progress: 0 }
    );
    tm.submit_task(&task.id, &Solution { x_squared: 0 }).expect("submission must succeed");
    assert_eq!(tm.get_num_unsolved_problems(), 0);
    assert_eq!(tm.tasks.len(), 1);
    assert_eq!(tm.tasks[0].status, TaskStatus::Completed);
}

#[test]
fn heartbeat_timeout_revocation() {
    let mut tm = registry_with_problems(2);
    let task_a = tm.assign_task(0).expect("problem 0 must be handed out");
    assert_eq!(task_a.problem, Problem { x: 0 });
    // Worker A stays silent; 16 s later the reaper passes (timeout 15 s).
    tm.cleanup_tasks(16);
    let revoked = tm.tasks.iter().find(|t| t.id == task_a.id).unwrap();
    assert_eq!(revoked.status, TaskStatus::Pending);
    // Worker B asks next: problem 0 is still the smallest unsolved key.
    let task_b = tm.assign_task(16).expect("problem 0 must be handed out again");
    assert_eq!(task_b.problem, Problem { x: 0 });
    tm.submit_task(&task_b.id, &Solution { x_squared: 0 }).expect("submission must succeed");
    assert_eq!(tm.problem_generator.solutions[0], Some(Solution { x_squared: 0 }));
    // Two tasks now exist for problem 0: the revoked one and the completed one.
    let for_zero: Vec<_> = tm.tasks.iter().filter(|t| t.problem == Problem { x: 0 }).collect();
    assert_eq!(for_zero.len(), 2);
    assert!(for_zero.iter().any(|t| t.status == TaskStatus::Pending));
    assert!(for_zero.iter().any(|t| t.status == TaskStatus::Completed));
}

#[test]
fn assignments_come_in_ascending_key_order() {
    let mut tm = registry_with_problems(6);
    for expected in 0..6u64 {
        let task = tm.assign_task(0).expect("an unsolved problem remains");
        assert_eq!(task.problem, Problem { x: expected });
        tm.submit_task(&task.id, &Solution { x_squared: expected * expected })
            .expect("submission must succeed");
    }
    assert!(tm.assign_task(0).is_none());
}

#[test]
fn submit_after_revocation_still_records_solution() {
    let mut tm = registry_with_problems(1);
    let task = tm.assign_task(0).expect("problem 0 must be handed out");
    tm.cleanup_tasks(16);
    assert_eq!(tm.tasks[0].status, TaskStatus::Pending);
    assert_eq!(tm.get_num_unsolved_problems(), 1);
    tm.submit_task(&task.id, &Solution { x_squared: 0 })
        .expect("a submission against a revoked task is accepted");
    assert_eq!(tm.tasks[0].status, TaskStatus::Completed);
    assert_eq!(tm.get_num_unsolved_problems(), 0);
}

#[test]
fn heartbeat_against_completed_task_is_invalid() {
    let mut tm = registry_with_problems(1);
    let task = tm.assign_task(0).expect("problem 0 must be handed out");
    tm.submit_task(&task.id, &Solution { x_squared: 0 }).expect("submission must succeed");
    let err = tm.submit_heartbeat(&task.id, 500, 1).unwrap_err();
    assert_eq!(err, TaskError::InvalidTaskStatus);
    assert_eq!(err.http_status(), 400);
    assert_eq!(err.kind_label(), "InvalidTaskStatus");
}

#[test]
fn heartbeat_against_unknown_task_is_not_found() {
    let mut tm = registry_with_problems(1);
    let err = tm.submit_heartbeat(&"deadbeef".to_string(), 0, 0).unwrap_err();
    assert_eq!(err, TaskError::TaskNotFound);
    assert_eq!(err.http_status(), 404);
    assert_eq!(err.kind_label(), "TaskNotFound");
}

#[test]
fn submit_against_unknown_task_is_not_found() {
    let mut tm = registry_with_problems(1);
    let err = tm.submit_task(&"deadbeef".to_string(), &Solution { x_squared: 0 }).unwrap_err();
    assert_eq!(err, TaskError::TaskNotFound);
}

#[test]
fn resubmission_keeps_one_solution_and_last_wins() {
    let mut tm = registry_with_problems(1);
    let task = tm.assign_task(0).expect("problem 0 must be handed out");
    tm.submit_task(&task.id, &Solution { x_squared: 7 }).expect("first submission");
    tm.submit_task(&task.id, &Solution { x_squared: 0 }).expect("repeated submission");
    assert_eq!(tm.problem_generator.solutions.len(), 1);
    assert_eq!(tm.problem_generator.solutions[0], Some(Solution { x_squared: 0 }));
    assert_eq!(tm.get_num_unsolved_problems(), 0);
}

#[test]
fn heartbeat_is_idempotent_over_identical_progress() {
    let mut tm = registry_with_problems(1);
    let task = tm.assign_task(0).expect("problem 0 must be handed out");
    tm.submit_heartbeat(&task.id, 500, 3).expect("first heartbeat");
    let after_first: Vec<TaskStatus> = tm.tasks.iter().map(|t| t.status).collect();
    tm.submit_heartbeat(&task.id, 500, 3).expect("repeated heartbeat");
    let after_second: Vec<TaskStatus> = tm.tasks.iter().map(|t| t.status).collect();
    assert_eq!(after_first, after_second);
    assert_eq!(
        tm.tasks[0].status,
        TaskStatus::Assigned { last_heartbeat: 3, progress: 500 }
    );
}

#[test]
fn draining_n_problems_yields_n_solutions() {
    let n: u64 = 5;
    let mut tm = registry_with_problems(n);
    for round in 0..n {
        assert_eq!(tm.get_num_unsolved_problems() as u64, n - round);
        let task = tm.assign_task(round).expect("an unsolved problem remains");
        assert_eq!(task.problem.x, round);
        tm.submit_task(&task.id, &Solution { x_squared: round * round })
            .expect("submission must succeed");
    }
    assert_eq!(tm.get_num_unsolved_problems(), 0);
    for x in 0..n {
        assert_eq!(
            tm.problem_generator.solutions[x as usize],
            Some(Solution { x_squared: x * x })
        );
    }
    assert!(tm.assign_task(n).is_none());
}

#[test]
fn reaper_leaves_fresh_assignments_alone() {
    let mut tm = registry_with_problems(1);
    let task = tm.assign_task(10).expect("problem 0 must be handed out");
    // 15 s without a heartbeat is exactly the timeout: not yet expired.
    tm.cleanup_tasks(25);
    assert_eq!(
        tm.tasks[0].status,
        TaskStatus::Assigned { last_heartbeat: 10, progress: 0 }
    );
    // One second past the timeout the lease falls.
    tm.cleanup_tasks(26);
    assert_eq!(tm.tasks[0].status, TaskStatus::Pending);
    let _ = task;
}

#[test]
fn store_counts_solutions_never_above_problems() {
    let mut store = ProblemGenerator::new();
    assert!(store.get_unsolved_problem().is_none());
    assert_eq!(store.unsolved_count(), 0);
    store.generate_problem();
    store.generate_problem();
    assert_eq!(store.unsolved_count(), 2);
    let picked = store.get_unsolved_problem().expect("two unsolved problems exist");
    assert_eq!(picked, Problem { x: 0 });
    store
        .register_solution(&Problem { x: 0 }, &Solution { x_squared: 0 })
        .expect("problem 0 exists");
    assert_eq!(store.unsolved_count(), 1);
    assert_eq!(store.get_unsolved_problem(), Some(Problem { x: 1 }));
    assert!(store.problems.len() >= store.solutions.iter().filter(|s| s.is_some()).count());
}

#[test]
fn registering_against_unknown_problem_fails() {
    let mut store = ProblemGenerator::new();
    store.generate_problem();
    let err = store
        .register_solution(&Problem { x: 9 }, &Solution { x_squared: 81 })
        .unwrap_err();
    assert_eq!(err, TaskError::ProblemNotFound);
    assert_eq!(err.http_status(), 500);
    assert_eq!(err.kind_label(), "InternalError");
}

#[test]
fn minted_task_ids_differ_between_handouts() {
    let mut tm = registry_with_problems(2);
    let first = tm.assign_task(0).expect("problem 0 must be handed out");
    tm.submit_task(&first.id, &Solution { x_squared: 0 }).expect("submission must succeed");
    let second = tm.assign_task(0).expect("problem 1 must be handed out");
    assert_eq!(first.id.len(), 36);
    assert_eq!(second.id.len(), 36);
    assert_ne!(first.id, second.id);
}
