//! Scenarios on the shared-queue variant of the task manager.

use task_dispatch::shared_queue::{Task, TaskManager, TaskResult};

#[test]
fn test_add_task() {
    let mut task_manager = TaskManager::new("test".to_string(), 60, 3);

    task_manager.clear_all();

    for i in 0..10 {
        let task = Task { task_id: i, x: i };
        task_manager.add_task(task.task_id, &task);
    }

    let worker_id = uuid::Uuid::new_v4().to_string();
    for _ in 0..10 {
        let task = task_manager.assign_task(&worker_id);

        let task: Task = task.unwrap().1;
        let task_result = TaskResult {
            task_id: task.task_id,
            x_squared: task.x * task.x,
        };
        task_manager.complete_task(&worker_id, task.task_id, &task, &task_result);
    }

    for i in 0..10 {
        let result = task_manager.get_result(i);
        let result = result.unwrap();
        assert_eq!(result.task_id, i);
        assert_eq!(result.x_squared, i * i);
    }
}

#[test]
fn assignment_pops_smallest_score_regardless_of_insertion_order() {
    let mut tm = TaskManager::new("test".to_string(), 60, 3);
    for id in [5u32, 3, 4, 0, 2, 1] {
        tm.add_task(id, &Task { task_id: id, x: id });
    }
    let worker = "w".to_string();
    for expected in 0..6u32 {
        let (score, task) = tm.assign_task(&worker).expect("queue is not empty");
        assert_eq!(score, expected);
        assert_eq!(task, Task { task_id: expected, x: expected });
    }
    assert!(tm.assign_task(&worker).is_none());
}

#[test]
fn readding_a_member_rescores_instead_of_duplicating() {
    let mut tm = TaskManager::new("test".to_string(), 60, 3);
    let task = Task { task_id: 7, x: 7 };
    tm.add_task(9, &task);
    tm.add_task(1, &task);
    assert_eq!(tm.tasks.len(), 1);
    let worker = "w".to_string();
    let (score, popped) = tm.assign_task(&worker).expect("queue holds the member once");
    assert_eq!(score, 1);
    assert_eq!(popped, task);
    assert!(tm.assign_task(&worker).is_none());
}

#[test]
fn silent_worker_has_its_tasks_requeued() {
    let mut tm = TaskManager::new("test".to_string(), 60, 3);
    let task = Task { task_id: 0, x: 0 };
    tm.add_task(0, &task);
    let worker = "silent".to_string();
    tm.assign_task(&worker).expect("the queued task is handed out");
    assert!(tm.assign_task(&worker).is_none());
    // The worker never heartbeats: the next cleanup pass requeues its task.
    tm.cleanup_inactive_workers(10);
    assert_eq!(tm.workers.len(), 0);
    let (score, requeued) = tm.assign_task(&worker).expect("the task is back in the queue");
    assert_eq!(score, 0);
    assert_eq!(requeued, task);
}

#[test]
fn heartbeating_worker_keeps_its_tasks() {
    let mut tm = TaskManager::new("test".to_string(), 60, 30);
    let task = Task { task_id: 0, x: 0 };
    tm.add_task(0, &task);
    let worker = "alive".to_string();
    tm.assign_task(&worker).expect("the queued task is handed out");
    tm.submit_heartbeat(&worker, 0);
    // 10 s later the heartbeat (TTL 30 s) still stands.
    tm.cleanup_inactive_workers(10);
    assert_eq!(tm.workers.len(), 1);
    assert!(tm.assign_task(&worker).is_none());
    // Once the heartbeat expires, the task flows back.
    tm.cleanup_inactive_workers(31);
    assert_eq!(tm.workers.len(), 0);
    assert!(tm.assign_task(&worker).is_some());
}

#[test]
fn completing_overwrites_the_stored_result() {
    let mut tm = TaskManager::new("test".to_string(), 60, 3);
    let task = Task { task_id: 4, x: 4 };
    tm.add_task(4, &task);
    let worker = "w".to_string();
    tm.assign_task(&worker).expect("the queued task is handed out");
    tm.complete_task(&worker, 4, &task, &TaskResult { task_id: 4, x_squared: 99 });
    tm.complete_task(&worker, 4, &task, &TaskResult { task_id: 4, x_squared: 16 });
    assert_eq!(tm.results.len(), 1);
    let stored = tm.get_result(4).expect("a result is stored");
    assert_eq!(stored, TaskResult { task_id: 4, x_squared: 16 });
}

#[test]
fn removed_results_are_gone() {
    let mut tm = TaskManager::new("test".to_string(), 60, 3);
    let task = Task { task_id: 2, x: 2 };
    tm.add_task(2, &task);
    let worker = "w".to_string();
    tm.assign_task(&worker).expect("the queued task is handed out");
    tm.complete_task(&worker, 2, &task, &TaskResult { task_id: 2, x_squared: 4 });
    assert!(tm.get_result(2).is_some());
    tm.remove_result(2);
    assert!(tm.get_result(2).is_none());
    tm.remove_result(2);
    assert!(tm.get_result(2).is_none());
}

#[test]
fn key_layout_follows_the_prefix() {
    let tm = TaskManager::new("task_manager".to_string(), 600, 5);
    assert_eq!(tm.tasks_key(), "task_manager:tasks");
    assert_eq!(tm.worker_key(&"w1".to_string()), "task_manager:worker:w1");
    assert_eq!(tm.heartbeat_key(&"w1".to_string()), "task_manager:heartbeat:w1");
}

#[test]
fn clear_all_empties_every_record() {
    let mut tm = TaskManager::new("test".to_string(), 60, 3);
    tm.add_task(0, &Task { task_id: 0, x: 0 });
    let worker = "w".to_string();
    tm.submit_heartbeat(&worker, 0);
    tm.assign_task(&worker).expect("the queued task is handed out");
    tm.clear_all();
    assert_eq!(tm.tasks.len(), 0);
    assert_eq!(tm.workers.len(), 0);
    assert_eq!(tm.results.len(), 0);
    assert_eq!(tm.heartbeats.len(), 0);
}
