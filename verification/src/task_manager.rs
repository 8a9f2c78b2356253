//! The task registry: the scheduler-and-lease state machine.
//!
//! A task is born `Assigned` when a worker asks for work and an unsolved
//! problem exists.  A heartbeat refreshes its lease; the reaper demotes a
//! silent assignment back to `Pending`; a submission completes it and
//! registers the solution with the problem store.  `Completed` is terminal.
//! The registry owns the mapping from task id to task, and holds the
//! problem store for the narrow purpose of asking for unsolved problems and
//! recording solutions.
//!
//! Wall-clock time never enters this module on its own: every operation
//! that reads the clock takes the current time in seconds as an argument,
//! so each contract pins the resulting state exactly.

use vstd::prelude::*;

use crate::constants::HEART_BEAT_TIMEOUT;
use crate::errors::TaskError;
use crate::problem_generator::{
    first_unsolved, num_solved, Problem, ProblemGenerator, Solution,
};

verus! {

/// Lifecycle position of one task.
#[derive(Clone, Copy, Debug, PartialEq, Eq, Structural)]
pub enum TaskStatus {
    /// Revoked or not yet handed out; eligible for a new handout through
    /// the problem store.
    Pending,
    /// Held by a worker under a lease.
    Assigned {
        /// Seconds-since-epoch of the last heartbeat; valid only while
        /// assigned.
        last_heartbeat: u64,
        /// The progress fraction as last reported, in the opaque encoding
        /// the transport chose; the scheduler never interprets it.
        progress: u64,
    },
    /// Solved and recorded; terminal.
    Completed,
}

/// One scheduling record.
#[derive(Debug)]
pub struct Task {
    /// Fresh globally-unique identifier, minted on creation.
    pub id: String,
    /// The problem being worked; a value copy of the store's entry.
    pub problem: Problem,
    /// Where the task stands in its lifecycle.
    pub status: TaskStatus,
}

/// What the registry knows of a task, keyed by its id.
pub struct TaskSnap {
    /// The problem being worked.
    pub problem: Problem,
    /// Where the task stands in its lifecycle.
    pub status: TaskStatus,
}

/// The id-less part of a task record.
pub open spec fn snap(t: Task) -> TaskSnap {
    TaskSnap { problem: t.problem, status: t.status }
}

/// The registry's task population as a map from id to record.
pub open spec fn task_map(s: Seq<Task>) -> Map<Seq<char>, TaskSnap>
    decreases s.len(),
{
    if s.len() == 0 {
        Map::empty()
    } else {
        task_map(s.drop_last()).insert(s.last().id@, snap(s.last()))
    }
}

/// No two task records share an id.
pub open spec fn unique_ids(s: Seq<Task>) -> bool {
    forall|i: int, j: int| 0 <= i < j < s.len() ==> s[i].id@ != s[j].id@
}

/// A task record the store can answer for: it works a problem the store
/// knows, and if it is completed, a solution is registered for its key.
pub open spec fn task_ok(pg: ProblemGenerator, t: Task) -> bool {
    &&& (t.problem.x as int) < pg.problems@.len()
    &&& (t.status is Completed ==> pg.solutions@[t.problem.x as int] is Some)
}

/// What the reaper leaves of a status at time `now`: an assignment whose
/// lease has run out is demoted to pending, everything else is untouched.
pub open spec fn reap(st: TaskStatus, now: u64) -> TaskStatus {
    match st {
        TaskStatus::Assigned { last_heartbeat, progress } => {
            if now > last_heartbeat + HEART_BEAT_TIMEOUT {
                TaskStatus::Pending
            } else {
                st
            }
        },
        _ => st,
    }
}

pub proof fn lemma_unique_drop_last(s: Seq<Task>)
    requires
        unique_ids(s),
        s.len() > 0,
    ensures
        unique_ids(s.drop_last()),
{
    assert forall|i: int, j: int| 0 <= i < j < s.drop_last().len() implies s.drop_last()[i].id@
        != s.drop_last()[j].id@ by {
        assert(s.drop_last()[i] == s[i]);
        assert(s.drop_last()[j] == s[j]);
    }
}

/// An id is in the task map exactly when some record carries it.
pub proof fn lemma_task_map_dom(s: Seq<Task>, id: Seq<char>)
    ensures
        task_map(s).dom().contains(id) <==> exists|i: int|
            0 <= i < s.len() && (#[trigger] s[i]).id@ == id,
    decreases s.len(),
{
    if s.len() > 0 {
        lemma_task_map_dom(s.drop_last(), id);
        if s.last().id@ == id {
            assert(s[s.len() - 1].id@ == id);
        } else if task_map(s).dom().contains(id) {
            let i = choose|i: int| 0 <= i < s.drop_last().len() && (#[trigger] s.drop_last()[i]).id@
                == id;
            assert(s[i].id@ == id);
        } else {
            assert forall|i: int| 0 <= i < s.len() implies (#[trigger] s[i]).id@ != id by {
                if i < s.len() - 1 {
                    assert(s.drop_last()[i] == s[i]);
                }
            }
        }
    }
}

/// Under unique ids, the map entry of a record is its snapshot.
pub proof fn lemma_task_map_index(s: Seq<Task>, i: int)
    requires
        unique_ids(s),
        0 <= i < s.len(),
    ensures
        task_map(s).dom().contains(s[i].id@),
        task_map(s)[s[i].id@] == snap(s[i]),
    decreases s.len(),
{
    if i < s.len() - 1 {
        lemma_unique_drop_last(s);
        lemma_task_map_index(s.drop_last(), i);
        assert(s.drop_last()[i] == s[i]);
        assert(s[i].id@ != s.last().id@);
    }
}

/// Replacing the record at `i` by one with the same id updates the map at
/// that id alone.
pub proof fn lemma_task_map_update(s: Seq<Task>, i: int, t: Task)
    requires
        unique_ids(s),
        0 <= i < s.len(),
        t.id@ == s[i].id@,
    ensures
        unique_ids(s.update(i, t)),
        task_map(s.update(i, t)) == task_map(s).insert(t.id@, snap(t)),
    decreases s.len(),
{
    let u = s.update(i, t);
    assert forall|a: int, b: int| 0 <= a < b < u.len() implies u[a].id@ != u[b].id@ by {
        assert(s[a].id@ != s[b].id@);
    }
    if i == s.len() - 1 {
        assert(u.drop_last() =~= s.drop_last());
        assert(u.last() == t);
        assert(task_map(s).insert(t.id@, snap(t)) =~= task_map(s.drop_last()).insert(
            t.id@,
            snap(t),
        ));
    } else {
        lemma_unique_drop_last(s);
        assert(u.drop_last() =~= s.drop_last().update(i, t));
        assert(s.drop_last()[i] == s[i]);
        lemma_task_map_update(s.drop_last(), i, t);
        assert(u.last() == s.last());
        assert(t.id@ != s.last().id@);
        assert(task_map(s.drop_last()).insert(t.id@, snap(t)).insert(
            s.last().id@,
            snap(s.last()),
        ) =~= task_map(s.drop_last()).insert(s.last().id@, snap(s.last())).insert(
            t.id@,
            snap(t),
        ));
    }
}

/// Relies on `uuid::Uuid::new_v4` and its `Display` form: a fresh random
/// version-4 identifier, rendered as the 36-character hyphenated text.
/// Nothing is assumed about which identifier comes back.
#[verifier::external_body]
fn fresh_task_id() -> (id: String)
    ensures
        id@.len() == 36,
{
    uuid::Uuid::new_v4().to_string()
}

/// The scheduler: the authoritative owner of the task population.
pub struct TaskManager {
    /// The problem store the registry draws handouts from and records
    /// solutions with.
    pub problem_generator: ProblemGenerator,
    /// The task records, one per minted id.
    pub tasks: Vec<Task>,
}

impl TaskManager {
    /// The registry's invariant: a well-formed store, no duplicate ids,
    /// every task working a problem the store knows, and a registered
    /// solution behind every completed task.
    pub open spec fn wf(&self) -> bool {
        &&& self.problem_generator.wf()
        &&& unique_ids(self.tasks@)
        &&& forall|i: int|
            0 <= i < self.tasks@.len() ==> task_ok(
                self.problem_generator,
                #[trigger] self.tasks@[i],
            )
    }

    /// The task population as a map from id to record.
    pub open spec fn tasks_view(&self) -> Map<Seq<char>, TaskSnap> {
        task_map(self.tasks@)
    }

    /// A registry over the given store, with no tasks yet.
    pub fn new(problem_generator: ProblemGenerator) -> (tm: TaskManager)
        requires
            problem_generator.wf(),
        ensures
            tm.wf(),
            tm.problem_generator == problem_generator,
            tm.tasks@.len() == 0,
            tm.tasks_view() == Map::<Seq<char>, TaskSnap>::empty(),
    {
        TaskManager { problem_generator, tasks: Vec::new() }
    }

    /// Appends one problem to the owned store; the task population is
    /// untouched.
    pub fn generate_problem(&mut self)
        requires
            old(self).wf(),
        ensures
            final(self).wf(),
            final(self).tasks@ == old(self).tasks@,
            final(self).problem_generator.problems@ == old(self).problem_generator.problems@.push(
                (Problem { x: old(self).problem_generator.problems@.len() as u64 }),
            ),
            final(self).problem_generator.solutions@ == old(
                self,
            ).problem_generator.solutions@.push(None),
            num_solved(final(self).problem_generator.solutions@) == num_solved(
                old(self).problem_generator.solutions@,
            ),
    {
        self.problem_generator.generate_problem();
    }

    /// Finds the record carrying `id`, if any.
    fn find_task(&self, id: &String) -> (r: Option<usize>)
        ensures
            match r {
                Some(i) => i < self.tasks@.len() && self.tasks@[i as int].id@ == id@,
                None => forall|j: int|
                    0 <= j < self.tasks@.len() ==> (#[trigger] self.tasks@[j]).id@ != id@,
            },
    {
        let n = self.tasks.len();
        let mut i: usize = 0;
        while i < n
            invariant
                n == self.tasks@.len(),
                0 <= i <= n,
                forall|j: int| 0 <= j < i ==> (#[trigger] self.tasks@[j]).id@ != id@,
            decreases n - i,
        {
            if self.tasks[i].id == *id {
                return Some(i);
            }
            i += 1;
        }
        None
    }

    /// Hands out work: asks the store for the unsolved problem with the
    /// smallest key, and if there is one, mints a fresh task id and records
    /// the task as assigned at time `now` with zero progress.  Returns
    /// nothing exactly when every problem is solved.  The store itself is
    /// not changed by a handout.
    pub fn assign_task(&mut self, now: u64) -> (r: Option<Task>)
        requires
            old(self).wf(),
        ensures
            final(self).wf(),
            final(self).problem_generator == old(self).problem_generator,
            r is Some <==> num_solved(old(self).problem_generator.solutions@) < old(
                self,
            ).problem_generator.problems@.len(),
            r is None ==> *final(self) == *old(self),
            r matches Some(t) ==> {
                &&& t.problem.x as int == first_unsolved(old(self).problem_generator.solutions@)
                &&& (t.problem.x as int) < old(self).problem_generator.problems@.len()
                &&& old(self).problem_generator.solutions@[t.problem.x as int] is None
                &&& t.status == (TaskStatus::Assigned { last_heartbeat: now, progress: 0 })
                &&& t.id@.len() == 36
                &&& final(self).tasks_view() == old(self).tasks_view().insert(t.id@, snap(t))
            },
    {
        let picked = self.problem_generator.get_unsolved_problem();
        match picked {
            None => None,
            Some(problem) => {
                proof {
                    crate::problem_generator::lemma_unsolved_iff_not_full(
                        self.problem_generator.solutions@,
                    );
                }
                let id = fresh_task_id();
                let status = TaskStatus::Assigned { last_heartbeat: now, progress: 0 };
                let existing = self.find_task(&id);
                let stored = Task { id: id.clone(), problem, status };
                let handed = Task { id, problem, status };
                proof {
                    assert(stored.id@ == handed.id@);
                }
                match existing {
                    Some(i) => {
                        proof {
                            lemma_task_map_update(self.tasks@, i as int, stored);
                        }
                        self.tasks.set(i, stored);
                        proof {
                            assert forall|j: int| 0 <= j < self.tasks@.len() implies task_ok(
                                self.problem_generator,
                                #[trigger] self.tasks@[j],
                            ) by {
                                if j != i as int {
                                    assert(self.tasks@[j] == old(self).tasks@[j]);
                                }
                            }
                        }
                    },
                    None => {
                        self.tasks.push(stored);
                        proof {
                            assert(self.tasks@.drop_last() =~= old(self).tasks@);
                            assert(self.tasks@.last() == stored);
                            assert(task_map(self.tasks@) == task_map(old(self).tasks@).insert(
                                stored.id@,
                                snap(stored),
                            ));
                            assert forall|a: int, b: int|
                                0 <= a < b < self.tasks@.len() implies self.tasks@[a].id@
                                != self.tasks@[b].id@ by {
                                if b < self.tasks@.len() - 1 {
                                    assert(old(self).tasks@[a].id@ != old(self).tasks@[b].id@);
                                } else {
                                    assert(old(self).tasks@[a].id@ != stored.id@);
                                }
                            }
                            assert forall|j: int| 0 <= j < self.tasks@.len() implies task_ok(
                                self.problem_generator,
                                #[trigger] self.tasks@[j],
                            ) by {
                                if j < self.tasks@.len() - 1 {
                                    assert(self.tasks@[j] == old(self).tasks@[j]);
                                }
                            }
                        }
                    },
                }
                Some(handed)
            },
        }
    }

    /// Accepts a submitted solution: completes the task and registers the
    /// solution under its problem key, whatever state the task was in —
    /// the work product is valuable even after a revocation, and a repeated
    /// submission simply overwrites with an equal solution.  Fails exactly
    /// when the task id is unknown.
    pub fn submit_task(&mut self, id: &String, solution: &Solution) -> (r: Result<(), TaskError>)
        requires
            old(self).wf(),
        ensures
            final(self).wf(),
            final(self).problem_generator.problems@ == old(self).problem_generator.problems@,
            r is Ok <==> old(self).tasks_view().dom().contains(id@),
            r is Ok ==> {
                let t = old(self).tasks_view()[id@];
                &&& final(self).tasks_view() == old(self).tasks_view().insert(
                    id@,
                    (TaskSnap { problem: t.problem, status: TaskStatus::Completed }),
                )
                &&& final(self).problem_generator.solutions@ == old(
                    self,
                ).problem_generator.solutions@.update(t.problem.x as int, Some(*solution))
            },
            r is Err ==> *final(self) == *old(self) && r == Err::<(), TaskError>(
                TaskError::TaskNotFound,
            ),
    {
        proof {
            lemma_task_map_dom(self.tasks@, id@);
        }
        match self.find_task(id) {
            None => Err(TaskError::TaskNotFound),
            Some(i) => {
                proof {
                    lemma_task_map_index(self.tasks@, i as int);
                }
                let problem = self.tasks[i].problem;
                let tid = self.tasks[i].id.clone();
                let completed = Task { id: tid, problem, status: TaskStatus::Completed };
                proof {
                    lemma_task_map_update(self.tasks@, i as int, completed);
                }
                self.tasks.set(i, completed);
                let registered = self.problem_generator.register_solution(&problem, solution);
                proof {
                    assert(registered is Ok);
                }
                Ok(())
            },
        }
    }

    /// Refreshes the lease: records the heartbeat time `now` and the
    /// reported progress.  Fails with `TaskNotFound` exactly when the id is
    /// unknown, and with `InvalidTaskStatus` exactly when the task exists
    /// but is not assigned — already completed, or revoked to pending.
    pub fn submit_heartbeat(&mut self, id: &String, progress: u64, now: u64) -> (r: Result<
        (),
        TaskError,
    >)
        requires
            old(self).wf(),
        ensures
            final(self).wf(),
            final(self).problem_generator == old(self).problem_generator,
            r is Ok <==> (old(self).tasks_view().dom().contains(id@) && old(self).tasks_view()[
                id@
            ].status is Assigned),
            r is Ok ==> final(self).tasks_view() == old(self).tasks_view().insert(
                id@,
                (TaskSnap {
                    problem: old(self).tasks_view()[id@].problem,
                    status: TaskStatus::Assigned { last_heartbeat: now, progress },
                }),
            ),
            r is Err ==> *final(self) == *old(self),
            r == Err::<(), TaskError>(TaskError::TaskNotFound) <==> !old(
                self,
            ).tasks_view().dom().contains(id@),
            r == Err::<(), TaskError>(TaskError::InvalidTaskStatus) <==> (old(
                self,
            ).tasks_view().dom().contains(id@) && !(old(self).tasks_view()[id@].status is Assigned)),
    {
        proof {
            lemma_task_map_dom(self.tasks@, id@);
        }
        match self.find_task(id) {
            None => Err(TaskError::TaskNotFound),
            Some(i) => {
                proof {
                    lemma_task_map_index(self.tasks@, i as int);
                }
                let is_assigned = match self.tasks[i].status {
                    TaskStatus::Assigned { .. } => true,
                    _ => false,
                };
                if is_assigned {
                    let problem = self.tasks[i].problem;
                    let tid = self.tasks[i].id.clone();
                    let refreshed = Task {
                        id: tid,
                        problem,
                        status: TaskStatus::Assigned { last_heartbeat: now, progress },
                    };
                    proof {
                        lemma_task_map_update(self.tasks@, i as int, refreshed);
                    }
                    self.tasks.set(i, refreshed);
                    Ok(())
                } else {
                    Err(TaskError::InvalidTaskStatus)
                }
            },
        }
    }

    /// The reaper: demotes every assigned task whose last heartbeat lies
    /// more than the timeout before `now` back to pending, and touches
    /// nothing else.  Afterwards no assigned task is expired at `now`.
    pub fn cleanup_tasks(&mut self, now: u64)
        requires
            old(self).wf(),
        ensures
            final(self).wf(),
            final(self).problem_generator == old(self).problem_generator,
            final(self).tasks@.len() == old(self).tasks@.len(),
            forall|i: int|
                0 <= i < old(self).tasks@.len() ==> {
                    let t0 = #[trigger] old(self).tasks@[i];
                    let t1 = final(self).tasks@[i];
                    t1.id == t0.id && t1.problem == t0.problem && t1.status == reap(t0.status, now)
                },
            forall|i: int|
                0 <= i < final(self).tasks@.len() ==> ((#[trigger] final(self).tasks@[i].status)
                    matches TaskStatus::Assigned { last_heartbeat, .. } ==> now <= last_heartbeat
                    + HEART_BEAT_TIMEOUT),
    {
        let n = self.tasks.len();
        let mut i: usize = 0;
        while i < n
            invariant
                n == self.tasks@.len(),
                n == old(self).tasks@.len(),
                0 <= i <= n,
                self.problem_generator == old(self).problem_generator,
                old(self).wf(),
                unique_ids(self.tasks@),
                forall|j: int|
                    0 <= j < n ==> {
                        let t0 = #[trigger] old(self).tasks@[j];
                        let t1 = self.tasks@[j];
                        t1.id == t0.id && t1.problem == t0.problem && (if j < i {
                            t1.status == reap(t0.status, now)
                        } else {
                            t1.status == t0.status
                        })
                    },
            decreases n - i,
        {
            let expired = match self.tasks[i].status {
                TaskStatus::Assigned { last_heartbeat, .. } => {
                    last_heartbeat < now && now - last_heartbeat > HEART_BEAT_TIMEOUT
                },
                _ => false,
            };
            if expired {
                let problem = self.tasks[i].problem;
                let tid = self.tasks[i].id.clone();
                let demoted = Task { id: tid, problem, status: TaskStatus::Pending };
                proof {
                    lemma_task_map_update(self.tasks@, i as int, demoted);
                }
                self.tasks.set(i, demoted);
            }
            i += 1;
        }
        proof {
            assert forall|j: int| 0 <= j < self.tasks@.len() implies task_ok(
                self.problem_generator,
                #[trigger] self.tasks@[j],
            ) by {
                assert(task_ok(old(self).problem_generator, old(self).tasks@[j]));
                assert(self.tasks@[j].status == reap(old(self).tasks@[j].status, now));
            }
            assert forall|j: int|
                0 <= j < self.tasks@.len() implies ((#[trigger] self.tasks@[j].status)
                matches TaskStatus::Assigned { last_heartbeat, .. } ==> now <= last_heartbeat
                + HEART_BEAT_TIMEOUT) by {
                assert(self.tasks@[j].status == reap(old(self).tasks@[j].status, now));
            }
        }
    }

    /// How many problems still lack a solution; a pass-through to the
    /// store, used by the reaper loop's telemetry.
    pub fn get_num_unsolved_problems(&self) -> (r: usize)
        requires
            self.wf(),
        ensures
            r == self.problem_generator.problems@.len() - num_solved(
                self.problem_generator.solutions@,
            ),
    {
        self.problem_generator.unsolved_count()
    }
}

/// A task's status is always one of pending, assigned and completed:
/// the lifecycle has no further states.
pub proof fn lemma_status_in_lifecycle(t: Task)
    ensures
        t.status is Pending || t.status is Assigned || t.status is Completed,
{
}

/// Behind every completed task of a well-formed registry stands a solution
/// registered for that task's problem key.
pub proof fn lemma_completed_task_has_solution(tm: TaskManager, i: int)
    requires
        tm.wf(),
        0 <= i < tm.tasks@.len(),
        tm.tasks@[i].status is Completed,
    ensures
        tm.problem_generator.solutions@[tm.tasks@[i].problem.x as int] is Some,
{
}

/// A worker that never heartbeats after its assignment at `t0` loses the
/// task to the first reaper pass that runs once the timeout has elapsed:
/// the reaper demotes the assignment to pending.
pub proof fn lemma_silent_assignment_reaped(t0: u64, progress: u64, now: u64)
    requires
        now > t0 + HEART_BEAT_TIMEOUT,
    ensures
        reap(TaskStatus::Assigned { last_heartbeat: t0, progress }, now) == TaskStatus::Pending,
{
}

/// Recording the same heartbeat twice is idempotent: the second recording
/// finds the task assigned again and leaves the task population exactly
/// where the first left it.
pub proof fn lemma_heartbeat_idempotent(
    m: Map<Seq<char>, TaskSnap>,
    id: Seq<char>,
    problem: Problem,
    progress: u64,
    now: u64,
)
    ensures
        ({
            let refreshed = TaskSnap {
                problem,
                status: TaskStatus::Assigned { last_heartbeat: now, progress },
            };
            &&& m.insert(id, refreshed)[id].status is Assigned
            &&& m.insert(id, refreshed).insert(id, refreshed) == m.insert(id, refreshed)
        }),
{
    let refreshed = TaskSnap {
        problem,
        status: TaskStatus::Assigned { last_heartbeat: now, progress },
    };
    assert(m.insert(id, refreshed).insert(id, refreshed) =~= m.insert(id, refreshed));
}

/// Submitting against the same task twice completes it once and leaves
/// exactly one solution registered for its problem key — the later one —
/// with the second submission changing neither the task population nor the
/// solution count.
pub proof fn lemma_submit_twice(
    m: Map<Seq<char>, TaskSnap>,
    sols: Seq<Option<Solution>>,
    id: Seq<char>,
    sol1: Solution,
    sol2: Solution,
)
    requires
        m.dom().contains(id),
        (m[id].problem.x as int) < sols.len(),
    ensures
        ({
            let x = m[id].problem.x as int;
            let done = TaskSnap { problem: m[id].problem, status: TaskStatus::Completed };
            let m1 = m.insert(id, done);
            let sols1 = sols.update(x, Some(sol1));
            &&& m1.insert(id, (TaskSnap { problem: m1[id].problem, status: TaskStatus::Completed }))
                == m1
            &&& sols1.update(x, Some(sol2))[x] == Some(sol2)
            &&& num_solved(sols1.update(x, Some(sol2))) == num_solved(sols1)
        }),
{
    let x = m[id].problem.x as int;
    let done = TaskSnap { problem: m[id].problem, status: TaskStatus::Completed };
    let m1 = m.insert(id, done);
    assert(m1.insert(id, (TaskSnap { problem: m1[id].problem, status: TaskStatus::Completed }))
        =~= m1);
    crate::problem_generator::lemma_resubmission_keeps_one_solution(sols, x, sol1, sol2);
}

} // verus!
