//! The worker agent's decisions.
//!
//! A worker holds at most one task in flight.  Its solver computes the
//! solution; its reporter wakes on a fixed cadence and either stays quiet,
//! reports progress, or submits the finished solution, and reacts to the
//! master's answer by keeping or clearing the local record.  The loops,
//! the sleeps and the transport live outside this crate; they feed the
//! functions here with plain values and carry the chosen action out.

use vstd::prelude::*;

use crate::problem_generator::{Problem, Solution};
use crate::shared_queue::{Task, TaskResult};

verus! {

/// The one in-flight task a worker holds, as the worker sees it.
pub struct LocalTask {
    /// Identifier the master handed out.
    pub task_id: String,
    /// The problem to work.
    pub problem: Problem,
    /// Progress as last staged by the solver, in the same opaque encoding
    /// the registry stores.
    pub progress: u64,
    /// The finished solution, once the solver is done.
    pub solution: Option<Solution>,
}

/// What the reporter does on one tick.
#[derive(Debug)]
pub enum ReporterAction {
    /// No task is held: nothing to report.
    Idle,
    /// Work is in flight: refresh the lease with the current progress.
    Heartbeat {
        /// The held task.
        task_id: String,
        /// The progress to report.
        progress: u64,
    },
    /// The solution is ready: hand it in.
    Submit {
        /// The held task.
        task_id: String,
        /// The finished solution.
        solution: Solution,
    },
}

/// How the master's answer to a report reads at the worker.
#[derive(Clone, Copy, Debug, PartialEq, Eq, Structural)]
pub enum ReportReply {
    /// The master took the report.
    Accepted,
    /// The master no longer honours the lease: the task is unknown or not
    /// assigned any more.
    LeaseLost,
    /// A transport fault; the reporter simply tries again on its next
    /// tick.
    Transient,
}

/// The fresh local record for a task just received from the master.
pub fn on_assignment(task_id: String, problem: Problem) -> (t: LocalTask)
    ensures
        t.task_id@ == task_id@,
        t.problem == problem,
        t.progress == 0,
        t.solution is None,
{
    LocalTask { task_id, problem, progress: 0, solution: None }
}

/// The worker's computation on a shared-queue task: the square of the
/// payload, answered under the task's own id.
pub fn solve_task(task: &Task) -> (r: TaskResult)
    requires
        task.x * task.x <= u32::MAX,
    ensures
        r.task_id == task.task_id,
        r.x_squared == task.x * task.x,
{
    TaskResult { task_id: task.task_id, x_squared: task.x * task.x }
}

/// The worker's computation on a registry problem: the square of its key.
pub fn solve_problem(problem: &Problem) -> (s: Solution)
    requires
        problem.x * problem.x <= u64::MAX,
    ensures
        s.x_squared == problem.x * problem.x,
{
    Solution { x_squared: problem.x * problem.x }
}

/// What one reporter tick does, given the local record: nothing without a
/// task, a heartbeat while the solution is pending, the submission once it
/// is ready.
pub fn reporter_action(state: &Option<LocalTask>) -> (r: ReporterAction)
    ensures
        ({
            match *state {
                None => r is Idle,
                Some(ref t) => match t.solution {
                    None => r matches ReporterAction::Heartbeat { task_id, progress }
                        && task_id@ == t.task_id@ && progress == t.progress,
                    Some(s) => r matches ReporterAction::Submit { task_id, solution } && task_id@
                        == t.task_id@ && solution == s,
                },
            }
        }),
{
    match state {
        None => ReporterAction::Idle,
        Some(t) => match &t.solution {
            None => ReporterAction::Heartbeat {
                task_id: t.task_id.clone(),
                progress: t.progress,
            },
            Some(s) => ReporterAction::Submit { task_id: t.task_id.clone(), solution: *s },
        },
    }
}

/// How the master's status code on a heartbeat reads: a missing task or a
/// task no longer assigned means the lease is gone; any other failure is
/// transient and retried on the next tick.
pub fn classify_heartbeat_reply(status: u16) -> (r: ReportReply)
    ensures
        status == 200 ==> r == ReportReply::Accepted,
        status == 404 || status == 400 ==> r == ReportReply::LeaseLost,
        !(status == 200 || status == 404 || status == 400) ==> r == ReportReply::Transient,
{
    if status == 200 {
        ReportReply::Accepted
    } else if status == 404 || status == 400 {
        ReportReply::LeaseLost
    } else {
        ReportReply::Transient
    }
}

/// How the master's status code on a submission reads: only a missing
/// task counts as a lost lease; any other failure is transient.
pub fn classify_submit_reply(status: u16) -> (r: ReportReply)
    ensures
        status == 200 ==> r == ReportReply::Accepted,
        status == 404 ==> r == ReportReply::LeaseLost,
        !(status == 200 || status == 404) ==> r == ReportReply::Transient,
{
    if status == 200 {
        ReportReply::Accepted
    } else if status == 404 {
        ReportReply::LeaseLost
    } else {
        ReportReply::Transient
    }
}

/// The reporter after a heartbeat: a lost lease abandons the task, any
/// other answer keeps the record for the next tick.
pub fn after_heartbeat_reply(state: Option<LocalTask>, reply: &ReportReply) -> (r: Option<
    LocalTask,
>)
    ensures
        *reply is LeaseLost ==> r is None,
        !(*reply is LeaseLost) ==> r == state,
{
    match reply {
        ReportReply::LeaseLost => None,
        _ => state,
    }
}

/// The reporter after a submission: once the master has the solution or
/// has forgotten the task, the record is cleared; a transient fault keeps
/// it for a retry.
pub fn after_submit_reply(state: Option<LocalTask>, reply: &ReportReply) -> (r: Option<LocalTask>)
    ensures
        *reply is Transient ==> r == state,
        !(*reply is Transient) ==> r is None,
{
    match reply {
        ReportReply::Transient => state,
        _ => None,
    }
}

} // verus!
