//! The worker agent's decisions on concrete inputs.

use task_dispatch::problem_generator::{Problem, Solution};
use task_dispatch::shared_queue::{Task, TaskResult};
use task_dispatch::worker::{
    after_heartbeat_reply, after_submit_reply, classify_heartbeat_reply, classify_submit_reply,
    on_assignment, reporter_action, solve_problem, solve_task, ReportReply, ReporterAction,
};

#[test]
fn solving_squares_the_payload() {
    let result = solve_task(&Task { task_id: 3, x: 7 });
    assert_eq!(result, TaskResult { task_id: 3, x_squared: 49 });
    let solution = solve_problem(&Problem { x: 12 });
    assert_eq!(solution, Solution { x_squared: 144 });
}

#[test]
fn reporter_is_idle_without_a_task() {
    let action = reporter_action(&None);
    assert!(matches!(action, ReporterAction::Idle));
}

#[test]
fn reporter_heartbeats_while_solving() {
    let mut local = on_assignment("id-1".to_string(), Problem { x: 2 });
    local.progress = 500;
    let action = reporter_action(&Some(local));
    match action {
        ReporterAction::Heartbeat { task_id, progress } => {
            assert_eq!(task_id, "id-1");
            assert_eq!(progress, 500);
        }
        other => panic!("expected a heartbeat, got {:?}", other),
    }
}

#[test]
fn reporter_submits_once_the_solution_is_ready() {
    let mut local = on_assignment("id-2".to_string(), Problem { x: 2 });
    local.solution = Some(Solution { x_squared: 4 });
    let action = reporter_action(&Some(local));
    match action {
        ReporterAction::Submit { task_id, solution } => {
            assert_eq!(task_id, "id-2");
            assert_eq!(solution, Solution { x_squared: 4 });
        }
        other => panic!("expected a submission, got {:?}", other),
    }
}

#[test]
fn heartbeat_replies_classify_by_status() {
    assert_eq!(classify_heartbeat_reply(200), ReportReply::Accepted);
    assert_eq!(classify_heartbeat_reply(404), ReportReply::LeaseLost);
    assert_eq!(classify_heartbeat_reply(400), ReportReply::LeaseLost);
    assert_eq!(classify_heartbeat_reply(500), ReportReply::Transient);
}

#[test]
fn submit_replies_classify_by_status() {
    assert_eq!(classify_submit_reply(200), ReportReply::Accepted);
    assert_eq!(classify_submit_reply(404), ReportReply::LeaseLost);
    assert_eq!(classify_submit_reply(500), ReportReply::Transient);
}

#[test]
fn lost_lease_abandons_the_local_record() {
    let local = on_assignment("id-3".to_string(), Problem { x: 1 });
    let after = after_heartbeat_reply(Some(local), &ReportReply::LeaseLost);
    assert!(after.is_none());
}

#[test]
fn accepted_heartbeat_keeps_the_local_record() {
    let local = on_assignment("id-4".to_string(), Problem { x: 1 });
    let after = after_heartbeat_reply(Some(local), &ReportReply::Accepted);
    let kept = after.expect("the record survives an accepted heartbeat");
    assert_eq!(kept.task_id, "id-4");
    assert_eq!(kept.progress, 0);
    assert!(kept.solution.is_none());
}

#[test]
fn submission_outcome_clears_unless_transient() {
    let local = on_assignment("id-5".to_string(), Problem { x: 1 });
    assert!(after_submit_reply(Some(local), &ReportReply::Accepted).is_none());
    let local = on_assignment("id-6".to_string(), Problem { x: 1 });
    assert!(after_submit_reply(Some(local), &ReportReply::LeaseLost).is_none());
    let local = on_assignment("id-7".to_string(), Problem { x: 1 });
    let kept = after_submit_reply(Some(local), &ReportReply::Transient);
    assert_eq!(kept.expect("a transient fault keeps the record").task_id, "id-7");
}
