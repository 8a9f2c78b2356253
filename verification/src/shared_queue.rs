//! The shared-queue variant of the dispatcher: one conceptual state
//! machine with the in-memory registry, but with its state held between
//! calls by an external key-value store offering sorted sets, strings and
//! TTL-based liveness.
//!
//! This module is that state machine.  A sorted-set entry is a `(score,
//! member)` pair; `zadd` inserts a member or re-scores it, `zpopmin` takes
//! the entry with the smallest score, and a worker is live while its
//! heartbeat key has not expired.  The unverified binding mirrors each
//! operation onto the store one command at a time, using the key layout
//! given by [`TaskManager::tasks_key`] and its siblings; where the store
//! scans keys in an unspecified order, this model fixes the queue order,
//! which only settles ties between equal scores.
//!
//! The store's clock never enters on its own: operations that depend on
//! time take the current time in seconds as an argument, and a heartbeat
//! is modelled by the deadline it buys.

use vstd::prelude::*;
use vstd::string::StringExecFns;

verus! {

/// One unit of work in the shared queue, serialized as the sorted-set
/// member.
#[derive(Clone, Copy, Debug, PartialEq, Eq, Structural)]
pub struct Task {
    /// Identity of the task; doubles as its score in the queue.
    pub task_id: u32,
    /// The input payload.
    pub x: u32,
}

/// The recorded outcome of one task.
#[derive(Clone, Copy, Debug, PartialEq, Eq, Structural)]
pub struct TaskResult {
    /// The task this result answers.
    pub task_id: u32,
    /// The output payload.
    pub x_squared: u32,
}

/// The tasks a single worker holds, under the worker's queue key.
pub struct WorkerQueue {
    /// The worker's identity.
    pub worker_id: String,
    /// The entries moved here from the pending queue.
    pub tasks: Vec<(u32, Task)>,
}

/// Index of the first entry whose member equals `m`, or `-1`.
pub open spec fn index_of_member(q: Seq<(u32, Task)>, m: Task) -> int
    decreases q.len(),
{
    if q.len() == 0 {
        -1
    } else if q[0].1 == m {
        0
    } else {
        let r = index_of_member(q.drop_first(), m);
        if r == -1 {
            -1
        } else {
            1 + r
        }
    }
}

pub proof fn lemma_index_of_member(q: Seq<(u32, Task)>, m: Task)
    ensures
        ({
            let i = index_of_member(q, m);
            &&& -1 <= i < q.len()
            &&& i == -1 ==> forall|j: int| 0 <= j < q.len() ==> (#[trigger] q[j]).1 != m
            &&& i != -1 ==> q[i].1 == m && (forall|j: int| 0 <= j < i ==> (#[trigger] q[j]).1 != m)
        }),
    decreases q.len(),
{
    if q.len() > 0 && q[0].1 != m {
        lemma_index_of_member(q.drop_first(), m);
        assert forall|j: int| 1 <= j < q.len() implies q.drop_first()[j - 1] == (
        #[trigger] q[j]) by {}
    }
}

/// Index of the first worker-queue pair for worker `w`, or `-1`.
pub open spec fn index_of_worker(ws: Seq<(Seq<char>, Seq<(u32, Task)>)>, w: Seq<char>) -> int
    decreases ws.len(),
{
    if ws.len() == 0 {
        -1
    } else if ws[0].0 == w {
        0
    } else {
        let r = index_of_worker(ws.drop_first(), w);
        if r == -1 {
            -1
        } else {
            1 + r
        }
    }
}

pub proof fn lemma_index_of_worker(ws: Seq<(Seq<char>, Seq<(u32, Task)>)>, w: Seq<char>)
    ensures
        ({
            let i = index_of_worker(ws, w);
            &&& -1 <= i < ws.len()
            &&& i == -1 ==> forall|j: int| 0 <= j < ws.len() ==> (#[trigger] ws[j]).0 != w
            &&& i != -1 ==> ws[i].0 == w && (forall|j: int| 0 <= j < i ==> (#[trigger] ws[j]).0 != w)
        }),
    decreases ws.len(),
{
    if ws.len() > 0 && ws[0].0 != w {
        lemma_index_of_worker(ws.drop_first(), w);
        assert forall|j: int| 1 <= j < ws.len() implies ws.drop_first()[j - 1] == (
        #[trigger] ws[j]) by {}
    }
}

/// Index of the first heartbeat record for worker `w`, or `-1`.
pub open spec fn index_of_heartbeat(hs: Seq<(Seq<char>, u64)>, w: Seq<char>) -> int
    decreases hs.len(),
{
    if hs.len() == 0 {
        -1
    } else if hs[0].0 == w {
        0
    } else {
        let r = index_of_heartbeat(hs.drop_first(), w);
        if r == -1 {
            -1
        } else {
            1 + r
        }
    }
}

pub proof fn lemma_index_of_heartbeat(hs: Seq<(Seq<char>, u64)>, w: Seq<char>)
    ensures
        ({
            let i = index_of_heartbeat(hs, w);
            &&& -1 <= i < hs.len()
            &&& i == -1 ==> forall|j: int| 0 <= j < hs.len() ==> (#[trigger] hs[j]).0 != w
            &&& i != -1 ==> hs[i].0 == w && (forall|j: int| 0 <= j < i ==> (#[trigger] hs[j]).0 != w)
        }),
    decreases hs.len(),
{
    if hs.len() > 0 && hs[0].0 != w {
        lemma_index_of_heartbeat(hs.drop_first(), w);
        assert forall|j: int| 1 <= j < hs.len() implies hs.drop_first()[j - 1] == (
        #[trigger] hs[j]) by {}
    }
}

/// Index of the first result stored under key `k`, or `-1`.
pub open spec fn index_of_result(rs: Seq<(u32, TaskResult)>, k: u32) -> int
    decreases rs.len(),
{
    if rs.len() == 0 {
        -1
    } else if rs[0].0 == k {
        0
    } else {
        let r = index_of_result(rs.drop_first(), k);
        if r == -1 {
            -1
        } else {
            1 + r
        }
    }
}

pub proof fn lemma_index_of_result(rs: Seq<(u32, TaskResult)>, k: u32)
    ensures
        ({
            let i = index_of_result(rs, k);
            &&& -1 <= i < rs.len()
            &&& i == -1 ==> forall|j: int| 0 <= j < rs.len() ==> (#[trigger] rs[j]).0 != k
            &&& i != -1 ==> rs[i].0 == k && (forall|j: int| 0 <= j < i ==> (#[trigger] rs[j]).0 != k)
        }),
    decreases rs.len(),
{
    if rs.len() > 0 && rs[0].0 != k {
        lemma_index_of_result(rs.drop_first(), k);
        assert forall|j: int| 1 <= j < rs.len() implies rs.drop_first()[j - 1] == (
        #[trigger] rs[j]) by {}
    }
}

/// Sorted-set insertion: a known member is re-scored in place, a new one
/// is appended.
pub open spec fn zadd(q: Seq<(u32, Task)>, score: u32, m: Task) -> Seq<(u32, Task)> {
    let i = index_of_member(q, m);
    if i == -1 {
        q.push((score, m))
    } else {
        q.update(i, (score, m))
    }
}

/// Sorted-set removal of one member; absent members are left alone.
pub open spec fn zrem(q: Seq<(u32, Task)>, m: Task) -> Seq<(u32, Task)> {
    let i = index_of_member(q, m);
    if i == -1 {
        q
    } else {
        q.remove(i)
    }
}

/// String-key write of a result: overwrite or append.
pub open spec fn set_result(rs: Seq<(u32, TaskResult)>, k: u32, v: TaskResult) -> Seq<
    (u32, TaskResult),
> {
    let i = index_of_result(rs, k);
    if i == -1 {
        rs.push((k, v))
    } else {
        rs.update(i, (k, v))
    }
}

/// Heartbeat write: the worker's liveness deadline is set or refreshed.
pub open spec fn set_heartbeat(hs: Seq<(Seq<char>, u64)>, w: Seq<char>, deadline: u64) -> Seq<
    (Seq<char>, u64),
> {
    let i = index_of_heartbeat(hs, w);
    if i == -1 {
        hs.push((w, deadline))
    } else {
        hs.update(i, (w, deadline))
    }
}

/// Where an assignment lands: the entry is re-queued into the assignee's
/// queue at its score, and the queue is created when the worker has none
/// yet.
pub open spec fn assign_to_worker(
    ws: Seq<(Seq<char>, Seq<(u32, Task)>)>,
    w: Seq<char>,
    score: u32,
    m: Task,
) -> Seq<(Seq<char>, Seq<(u32, Task)>)> {
    let i = index_of_worker(ws, w);
    if i == -1 {
        ws.push((w, seq![(score, m)]))
    } else {
        ws.update(i, (ws[i].0, zadd(ws[i].1, score, m)))
    }
}

/// A completed task leaves its worker's queue; a worker without a queue
/// leaves everything as it is.
pub open spec fn remove_from_worker(
    ws: Seq<(Seq<char>, Seq<(u32, Task)>)>,
    w: Seq<char>,
    m: Task,
) -> Seq<(Seq<char>, Seq<(u32, Task)>)> {
    let i = index_of_worker(ws, w);
    if i == -1 {
        ws
    } else {
        ws.update(i, (ws[i].0, zrem(ws[i].1, m)))
    }
}

/// Index of the first entry carrying the smallest score — what `zpopmin`
/// takes.
pub open spec fn min_score_index(q: Seq<(u32, Task)>) -> int
    decreases q.len(),
{
    if q.len() <= 1 {
        0
    } else {
        let r = 1 + min_score_index(q.drop_first());
        if q[0].0 <= q[r].0 {
            0
        } else {
            r
        }
    }
}

pub proof fn lemma_min_score_index(q: Seq<(u32, Task)>)
    requires
        q.len() > 0,
    ensures
        ({
            let k = min_score_index(q);
            &&& 0 <= k < q.len()
            &&& forall|j: int| 0 <= j < q.len() ==> q[k].0 <= (#[trigger] q[j]).0
            &&& forall|j: int| 0 <= j < k ==> (#[trigger] q[j]).0 > q[k].0
        }),
    decreases q.len(),
{
    if q.len() > 1 {
        lemma_min_score_index(q.drop_first());
        assert forall|j: int| 1 <= j < q.len() implies q.drop_first()[j - 1] == (
        #[trigger] q[j]) by {}
    }
}

/// The worker queues as the contracts see them: identity and entries, by
/// queue position.
pub open spec fn workers_view(ws: Seq<WorkerQueue>) -> Seq<(Seq<char>, Seq<(u32, Task)>)> {
    Seq::new(ws.len(), |i: int| (ws[i].worker_id@, ws[i].tasks@))
}

/// The heartbeat records as the contracts see them.
pub open spec fn heartbeats_view(hs: Seq<(String, u64)>) -> Seq<(Seq<char>, u64)> {
    Seq::new(hs.len(), |i: int| (hs[i].0@, hs[i].1))
}

/// A worker is live at `now` while its heartbeat deadline lies ahead; a
/// missing or expired heartbeat key reads as inactive.
pub open spec fn worker_live(hs: Seq<(Seq<char>, u64)>, w: Seq<char>, now: u64) -> bool {
    let i = index_of_heartbeat(hs, w);
    i != -1 && hs[i].1 > now
}

/// One dead worker's entries flowing back into the pending queue, in
/// queue order, each at its original score.
pub open spec fn requeue_all(tasks: Seq<(u32, Task)>, wq: Seq<(u32, Task)>) -> Seq<(u32, Task)>
    decreases wq.len(),
{
    if wq.len() == 0 {
        tasks
    } else {
        requeue_all(zadd(tasks, wq[0].0, wq[0].1), wq.drop_first())
    }
}

pub proof fn lemma_requeue_push(tasks: Seq<(u32, Task)>, wq: Seq<(u32, Task)>, e: (u32, Task))
    ensures
        requeue_all(tasks, wq.push(e)) == zadd(requeue_all(tasks, wq), e.0, e.1),
    decreases wq.len(),
{
    reveal_with_fuel(requeue_all, 2);
    let s = wq.push(e);
    if wq.len() == 0 {
        assert(s[0] == e);
        assert(s.drop_first() =~= Seq::<(u32, Task)>::empty());
    } else {
        assert(s[0] == wq[0]);
        assert(s.drop_first() =~= wq.drop_first().push(e));
        lemma_requeue_push(zadd(tasks, wq[0].0, wq[0].1), wq.drop_first(), e);
    }
}

/// One cleanup pass over the worker queues, front to back: a live worker
/// keeps its queue, a dead worker's entries are re-queued and its queue is
/// deleted.  The result is the new pending queue and the surviving worker
/// queues.
pub open spec fn cleanup_spec(
    tasks: Seq<(u32, Task)>,
    ws: Seq<(Seq<char>, Seq<(u32, Task)>)>,
    hs: Seq<(Seq<char>, u64)>,
    now: u64,
) -> (Seq<(u32, Task)>, Seq<(Seq<char>, Seq<(u32, Task)>)>)
    decreases ws.len(),
{
    if ws.len() == 0 {
        (tasks, ws)
    } else if worker_live(hs, ws[0].0, now) {
        let rest = cleanup_spec(tasks, ws.drop_first(), hs, now);
        (rest.0, seq![ws[0]] + rest.1)
    } else {
        cleanup_spec(requeue_all(tasks, ws[0].1), ws.drop_first(), hs, now)
    }
}

/// A cleanup pass over live workers only changes nothing.
pub proof fn lemma_cleanup_all_live(
    tasks: Seq<(u32, Task)>,
    ws: Seq<(Seq<char>, Seq<(u32, Task)>)>,
    hs: Seq<(Seq<char>, u64)>,
    now: u64,
)
    requires
        forall|l: int| 0 <= l < ws.len() ==> worker_live(hs, (#[trigger] ws[l]).0, now),
    ensures
        cleanup_spec(tasks, ws, hs, now) == (tasks, ws),
    decreases ws.len(),
{
    if ws.len() > 0 {
        assert forall|l: int| 0 <= l < ws.drop_first().len() implies worker_live(
            hs,
            (#[trigger] ws.drop_first()[l]).0,
            now,
        ) by {
            assert(ws.drop_first()[l] == ws[l + 1]);
        }
        lemma_cleanup_all_live(tasks, ws.drop_first(), hs, now);
        assert(seq![ws[0]] + ws.drop_first() =~= ws);
    }
}

/// A cleanup pass keeps exactly the workers whose heartbeat still stands:
/// every queue that survives belongs to a live worker.
pub proof fn lemma_cleanup_keeps_only_live(
    tasks: Seq<(u32, Task)>,
    ws: Seq<(Seq<char>, Seq<(u32, Task)>)>,
    hs: Seq<(Seq<char>, u64)>,
    now: u64,
)
    ensures
        forall|l: int|
            0 <= l < cleanup_spec(tasks, ws, hs, now).1.len() ==> worker_live(
                hs,
                (#[trigger] cleanup_spec(tasks, ws, hs, now).1[l]).0,
                now,
            ),
    decreases ws.len(),
{
    if ws.len() > 0 {
        if worker_live(hs, ws[0].0, now) {
            lemma_cleanup_keeps_only_live(tasks, ws.drop_first(), hs, now);
            let rest = cleanup_spec(tasks, ws.drop_first(), hs, now);
            assert forall|l: int|
                0 <= l < cleanup_spec(tasks, ws, hs, now).1.len() implies worker_live(
                hs,
                (#[trigger] cleanup_spec(tasks, ws, hs, now).1[l]).0,
                now,
            ) by {
                assert(cleanup_spec(tasks, ws, hs, now).1 == seq![ws[0]] + rest.1);
                if l == 0 {
                    assert((seq![ws[0]] + rest.1)[0] == ws[0]);
                } else {
                    assert((seq![ws[0]] + rest.1)[l] == rest.1[l - 1]);
                }
            }
        } else {
            lemma_cleanup_keeps_only_live(requeue_all(tasks, ws[0].1), ws.drop_first(), hs, now);
            let rest = cleanup_spec(requeue_all(tasks, ws[0].1), ws.drop_first(), hs, now);
            assert forall|l: int|
                0 <= l < cleanup_spec(tasks, ws, hs, now).1.len() implies worker_live(
                hs,
                (#[trigger] cleanup_spec(tasks, ws, hs, now).1[l]).0,
                now,
            ) by {
                assert(worker_live(hs, rest.1[l].0, now));
            }
        }
    }
}

/// With only live workers ahead of it, the first dead worker can be dealt
/// with on its own: re-queue its entries and drop its queue, then clean up
/// the rest.
pub proof fn lemma_cleanup_dead_at(
    tasks: Seq<(u32, Task)>,
    ws: Seq<(Seq<char>, Seq<(u32, Task)>)>,
    hs: Seq<(Seq<char>, u64)>,
    now: u64,
    i: int,
)
    requires
        0 <= i < ws.len(),
        forall|l: int| 0 <= l < i ==> worker_live(hs, (#[trigger] ws[l]).0, now),
        !worker_live(hs, ws[i].0, now),
    ensures
        cleanup_spec(tasks, ws, hs, now) == cleanup_spec(
            requeue_all(tasks, ws[i].1),
            ws.remove(i),
            hs,
            now,
        ),
    decreases i,
{
    if i == 0 {
        assert(ws.remove(0) =~= ws.drop_first());
    } else {
        assert(worker_live(hs, ws[0].0, now));
        assert forall|l: int| 0 <= l < i - 1 implies worker_live(
            hs,
            (#[trigger] ws.drop_first()[l]).0,
            now,
        ) by {
            assert(ws.drop_first()[l] == ws[l + 1]);
        }
        assert(ws.drop_first()[i - 1] == ws[i]);
        lemma_cleanup_dead_at(tasks, ws.drop_first(), hs, now, i - 1);
        assert(ws.remove(i).drop_first() =~= ws.drop_first().remove(i - 1));
        assert(ws.remove(i)[0] == ws[0]);
    }
}

/// The queue-backed task manager.  The unverified binding keeps exactly
/// this state under the keys below, and the contracts of the operations
/// say how each command reshapes it.
pub struct TaskManager {
    /// Key prefix all records of this manager live under.
    pub prefix: String,
    /// Leak-guard TTL, in seconds, refreshed on every data write.  It
    /// protects the store against orphaned data and plays no part in the
    /// scheduling logic.
    pub ttl: u64,
    /// Seconds a heartbeat keeps its worker counted as live.
    pub heartbeat_ttl: u64,
    /// The global pending queue, scored by task id.
    pub tasks: Vec<(u32, Task)>,
    /// One queue per worker that holds assigned tasks.
    pub workers: Vec<WorkerQueue>,
    /// Completed results by task id.
    pub results: Vec<(u32, TaskResult)>,
    /// The deadline each worker's last heartbeat bought.
    pub heartbeats: Vec<(String, u64)>,
}

impl TaskManager {
    /// A manager with the given key prefix and TTLs and nothing stored
    /// yet.  The binding connects to the store on its own; connection
    /// handling never enters the state machine.
    pub fn new(prefix: String, ttl: u64, heartbeat_ttl: u64) -> (tm: TaskManager)
        ensures
            tm.prefix == prefix,
            tm.ttl == ttl,
            tm.heartbeat_ttl == heartbeat_ttl,
            tm.tasks@.len() == 0,
            tm.workers@.len() == 0,
            tm.results@.len() == 0,
            tm.heartbeats@.len() == 0,
    {
        TaskManager {
            prefix,
            ttl,
            heartbeat_ttl,
            tasks: Vec::new(),
            workers: Vec::new(),
            results: Vec::new(),
            heartbeats: Vec::new(),
        }
    }

    /// The key of the global pending queue.
    pub fn tasks_key(&self) -> (key: String)
        ensures
            key@ == self.prefix@ + ":tasks"@,
    {
        self.prefix.clone().concat(":tasks")
    }

    /// The key of one worker's queue of assigned tasks.
    pub fn worker_key(&self, worker_id: &String) -> (key: String)
        ensures
            key@ == self.prefix@ + ":worker:"@ + worker_id@,
    {
        self.prefix.clone().concat(":worker:").concat(worker_id.as_str())
    }

    /// The key of one worker's heartbeat record.
    pub fn heartbeat_key(&self, worker_id: &String) -> (key: String)
        ensures
            key@ == self.prefix@ + ":heartbeat:"@ + worker_id@,
    {
        self.prefix.clone().concat(":heartbeat:").concat(worker_id.as_str())
    }

    /// Drops every record under the prefix; the configuration stays.
    pub fn clear_all(&mut self)
        ensures
            final(self).prefix == old(self).prefix,
            final(self).ttl == old(self).ttl,
            final(self).heartbeat_ttl == old(self).heartbeat_ttl,
            final(self).tasks@.len() == 0,
            final(self).workers@.len() == 0,
            final(self).results@.len() == 0,
            final(self).heartbeats@.len() == 0,
    {
        self.tasks.clear();
        self.workers.clear();
        self.results.clear();
        self.heartbeats.clear();
    }

    /// Queues a task: the member is added to the pending queue under the
    /// given score, or re-scored if it is already queued.
    pub fn add_task(&mut self, task_id: u32, task: &Task)
        ensures
            final(self).tasks@ == zadd(old(self).tasks@, task_id, *task),
            final(self).workers@ == old(self).workers@,
            final(self).results@ == old(self).results@,
            final(self).heartbeats@ == old(self).heartbeats@,
            final(self).prefix == old(self).prefix,
            final(self).ttl == old(self).ttl,
            final(self).heartbeat_ttl == old(self).heartbeat_ttl,
    {
        zadd_vec(&mut self.tasks, task_id, *task);
    }

    /// Looks a completed result up by task id.
    pub fn get_result(&self, task_id: u32) -> (r: Option<TaskResult>)
        ensures
            ({
                let i = index_of_result(self.results@, task_id);
                match r {
                    Some(res) => i != -1 && self.results@[i].1 == res,
                    None => i == -1,
                }
            }),
    {
        proof {
            lemma_index_of_result(self.results@, task_id);
        }
        let n = self.results.len();
        let mut j: usize = 0;
        while j < n
            invariant
                n == self.results@.len(),
                0 <= j <= n,
                forall|l: int| 0 <= l < j ==> (#[trigger] self.results@[l]).0 != task_id,
                ({
                    let i = index_of_result(self.results@, task_id);
                    &&& -1 <= i < n
                    &&& i == -1 ==> forall|l: int|
                        0 <= l < n ==> (#[trigger] self.results@[l]).0 != task_id
                    &&& i != -1 ==> self.results@[i].0 == task_id && (forall|l: int|
                        0 <= l < i ==> (#[trigger] self.results@[l]).0 != task_id)
                }),
            decreases n - j,
        {
            if self.results[j].0 == task_id {
                return Some(self.results[j].1);
            }
            j += 1;
        }
        None
    }

    /// Drops the stored result for a task id, if one is stored.
    pub fn remove_result(&mut self, task_id: u32)
        ensures
            ({
                let i = index_of_result(old(self).results@, task_id);
                final(self).results@ == if i == -1 {
                    old(self).results@
                } else {
                    old(self).results@.remove(i)
                }
            }),
            final(self).tasks@ == old(self).tasks@,
            final(self).workers@ == old(self).workers@,
            final(self).heartbeats@ == old(self).heartbeats@,
            final(self).prefix == old(self).prefix,
            final(self).ttl == old(self).ttl,
            final(self).heartbeat_ttl == old(self).heartbeat_ttl,
    {
        proof {
            lemma_index_of_result(self.results@, task_id);
        }
        let n = self.results.len();
        let mut j: usize = 0;
        while j < n
            invariant
                n == self.results@.len(),
                *self == *old(self),
                0 <= j <= n,
                forall|l: int| 0 <= l < j ==> (#[trigger] self.results@[l]).0 != task_id,
            decreases n - j,
        {
            if self.results[j].0 == task_id {
                proof {
                    lemma_index_of_result(self.results@, task_id);
                }
                let _ = self.results.remove(j);
                return;
            }
            j += 1;
        }
    }

    /// Finds the position of a worker's queue, if the worker holds one.
    fn find_worker(&self, worker_id: &String) -> (r: Option<usize>)
        ensures
            ({
                let i = index_of_worker(workers_view(self.workers@), worker_id@);
                match r {
                    Some(k) => i == k && k < self.workers@.len(),
                    None => i == -1,
                }
            }),
    {
        let ghost wv = workers_view(self.workers@);
        proof {
            lemma_index_of_worker(wv, worker_id@);
        }
        let n = self.workers.len();
        let mut j: usize = 0;
        while j < n
            invariant
                n == self.workers@.len(),
                wv == workers_view(self.workers@),
                0 <= j <= n,
                forall|l: int| 0 <= l < j ==> (#[trigger] wv[l]).0 != worker_id@,
            decreases n - j,
        {
            if self.workers[j].worker_id == *worker_id {
                proof {
                    let i = index_of_worker(wv, worker_id@);
                    assert(wv[j as int].0 == worker_id@);
                    assert(i == j) by {
                        if i == -1 {
                            assert(wv[j as int].0 != worker_id@);
                        }
                        if 0 <= i < j {
                            assert(wv[i].0 != worker_id@);
                        }
                        if i > j {
                            assert(wv[j as int].0 != worker_id@);
                        }
                    }
                }
                return Some(j);
            }
            j += 1;
        }
        None
    }

    /// Hands the cheapest queued task to a worker: the entry with the
    /// smallest score leaves the pending queue atomically and lands in the
    /// worker's own queue at the same score.  Returns nothing exactly when
    /// the pending queue is empty.
    pub fn assign_task(&mut self, worker_id: &String) -> (r: Option<(u32, Task)>)
        ensures
            old(self).tasks@.len() == 0 ==> r is None && *final(self) == *old(self),
            old(self).tasks@.len() > 0 ==> ({
                let k = min_score_index(old(self).tasks@);
                let e = old(self).tasks@[k];
                &&& r == Some::<(u32, Task)>(e)
                &&& final(self).tasks@ == old(self).tasks@.remove(k)
                &&& workers_view(final(self).workers@) == assign_to_worker(
                    workers_view(old(self).workers@),
                    worker_id@,
                    e.0,
                    e.1,
                )
                &&& final(self).results@ == old(self).results@
                &&& final(self).heartbeats@ == old(self).heartbeats@
                &&& final(self).prefix == old(self).prefix
                &&& final(self).ttl == old(self).ttl
                &&& final(self).heartbeat_ttl == old(self).heartbeat_ttl
            }),
    {
        let n = self.tasks.len();
        if n == 0 {
            return None;
        }
        proof {
            lemma_min_score_index(self.tasks@);
        }
        let mut k: usize = 0;
        let mut j: usize = 1;
        while j < n
            invariant
                0 <= k < j <= n,
                forall|l: int| 0 <= l < j ==> (#[trigger] self.tasks@[l]).0 >= self.tasks@[
                    k as int
                ].0,
                forall|l: int| 0 <= l < k ==> (#[trigger] self.tasks@[l]).0 > self.tasks@[
                    k as int
                ].0,
            decreases n - j,
        {
            if self.tasks[j].0 < self.tasks[k].0 {
                k = j;
            }
            j += 1;
        }
        proof {
            let ks = min_score_index(self.tasks@);
            assert(k == ks) by {
                if ks < k {
                    assert(self.tasks@[ks].0 > self.tasks@[k as int].0);
                    assert(self.tasks@[ks].0 <= self.tasks@[k as int].0);
                }
                if ks > k {
                    assert(self.tasks@[k as int].0 > self.tasks@[ks].0);
                    assert(self.tasks@[ks].0 >= self.tasks@[k as int].0);
                }
            }
        }
        let e = self.tasks[k];
        let _ = self.tasks.remove(k);
        let ghost wv = workers_view(old(self).workers@);
        match self.find_worker(worker_id) {
            Some(w) => {
                let mut entry = self.workers.remove(w);
                zadd_vec(&mut entry.tasks, e.0, e.1);
                self.workers.insert(w, entry);
                proof {
                    assert(workers_view(self.workers@) =~= assign_to_worker(
                        wv,
                        worker_id@,
                        e.0,
                        e.1,
                    ));
                }
            },
            None => {
                let mut fresh: Vec<(u32, Task)> = Vec::new();
                fresh.push(e);
                self.workers.push(WorkerQueue { worker_id: worker_id.clone(), tasks: fresh });
                proof {
                    assert(workers_view(self.workers@) =~= assign_to_worker(
                        wv,
                        worker_id@,
                        e.0,
                        e.1,
                    ));
                }
            },
        }
        Some(e)
    }

    /// Marks a task done: the member leaves the worker's queue and the
    /// result is stored under the task id, overwriting any earlier result
    /// for the same id.
    pub fn complete_task(
        &mut self,
        worker_id: &String,
        task_id: u32,
        task: &Task,
        result: &TaskResult,
    )
        ensures
            workers_view(final(self).workers@) == remove_from_worker(
                workers_view(old(self).workers@),
                worker_id@,
                *task,
            ),
            final(self).results@ == set_result(old(self).results@, task_id, *result),
            final(self).tasks@ == old(self).tasks@,
            final(self).heartbeats@ == old(self).heartbeats@,
            final(self).prefix == old(self).prefix,
            final(self).ttl == old(self).ttl,
            final(self).heartbeat_ttl == old(self).heartbeat_ttl,
    {
        let ghost wv = workers_view(old(self).workers@);
        match self.find_worker(worker_id) {
            Some(w) => {
                let mut entry = self.workers.remove(w);
                zrem_vec(&mut entry.tasks, task);
                self.workers.insert(w, entry);
                proof {
                    assert(workers_view(self.workers@) =~= remove_from_worker(
                        wv,
                        worker_id@,
                        *task,
                    ));
                }
            },
            None => {},
        }
        set_result_vec(&mut self.results, task_id, *result);
    }

    /// Whether a worker's heartbeat record is still ahead of `now` — what
    /// a TTL probe of its heartbeat key answers.
    fn heartbeat_live(&self, worker_id: &String, now: u64) -> (r: bool)
        ensures
            r == worker_live(heartbeats_view(self.heartbeats@), worker_id@, now),
    {
        let ghost hv = heartbeats_view(self.heartbeats@);
        proof {
            lemma_index_of_heartbeat(hv, worker_id@);
        }
        let n = self.heartbeats.len();
        let mut j: usize = 0;
        while j < n
            invariant
                n == self.heartbeats@.len(),
                hv == heartbeats_view(self.heartbeats@),
                0 <= j <= n,
                forall|l: int| 0 <= l < j ==> (#[trigger] hv[l]).0 != worker_id@,
            decreases n - j,
        {
            if self.heartbeats[j].0 == *worker_id {
                proof {
                    let i = index_of_heartbeat(hv, worker_id@);
                    assert(hv[j as int].0 == worker_id@);
                    assert(i == j) by {
                        if i == -1 {
                            assert(hv[j as int].0 != worker_id@);
                        }
                        if 0 <= i < j {
                            assert(hv[i].0 != worker_id@);
                        }
                        if i > j {
                            assert(hv[j as int].0 != worker_id@);
                        }
                    }
                }
                return self.heartbeats[j].1 > now;
            }
            j += 1;
        }
        false
    }

    /// The reaper of this variant: every worker whose heartbeat key is
    /// missing or expired at `now` has its queued entries moved back to
    /// the pending queue, each at its original score, and its queue
    /// deleted.  Live workers and their queues are untouched.
    pub fn cleanup_inactive_workers(&mut self, now: u64)
        ensures
            ({
                let plan = cleanup_spec(
                    old(self).tasks@,
                    workers_view(old(self).workers@),
                    heartbeats_view(old(self).heartbeats@),
                    now,
                );
                &&& final(self).tasks@ == plan.0
                &&& workers_view(final(self).workers@) == plan.1
            }),
            final(self).results@ == old(self).results@,
            final(self).heartbeats@ == old(self).heartbeats@,
            final(self).prefix == old(self).prefix,
            final(self).ttl == old(self).ttl,
            final(self).heartbeat_ttl == old(self).heartbeat_ttl,
    {
        let ghost hs = heartbeats_view(self.heartbeats@);
        let ghost goal = cleanup_spec(self.tasks@, workers_view(self.workers@), hs, now);
        let mut i: usize = 0;
        while i < self.workers.len()
            invariant
                0 <= i <= self.workers@.len(),
                cleanup_spec(self.tasks@, workers_view(self.workers@), hs, now) == goal,
                forall|l: int|
                    0 <= l < i ==> worker_live(
                        hs,
                        (#[trigger] workers_view(self.workers@)[l]).0,
                        now,
                    ),
                self.results@ == old(self).results@,
                self.heartbeats@ == old(self).heartbeats@,
                hs == heartbeats_view(self.heartbeats@),
                self.prefix == old(self).prefix,
                self.ttl == old(self).ttl,
                self.heartbeat_ttl == old(self).heartbeat_ttl,
            decreases self.workers@.len() - i,
        {
            let live = self.heartbeat_live(&self.workers[i].worker_id, now);
            if live {
                proof {
                    assert(workers_view(self.workers@)[i as int].0 == self.workers@[
                        i as int
                    ].worker_id@);
                }
                i += 1;
            } else {
                let ghost t0 = self.tasks@;
                let ghost wv0 = workers_view(self.workers@);
                let entry = self.workers.remove(i);
                proof {
                    assert(wv0[i as int].0 == entry.worker_id@);
                    assert(wv0[i as int].1 == entry.tasks@);
                    assert(workers_view(self.workers@) =~= wv0.remove(i as int));
                }
                let m = entry.tasks.len();
                let mut j: usize = 0;
                while j < m
                    invariant
                        m == entry.tasks@.len(),
                        0 <= j <= m,
                        self.tasks@ == requeue_all(t0, entry.tasks@.take(j as int)),
                        workers_view(self.workers@) == wv0.remove(i as int),
                        self.results@ == old(self).results@,
                        self.heartbeats@ == old(self).heartbeats@,
                        self.prefix == old(self).prefix,
                        self.ttl == old(self).ttl,
                        self.heartbeat_ttl == old(self).heartbeat_ttl,
                    decreases m - j,
                {
                    proof {
                        assert(entry.tasks@.take(j + 1int) =~= entry.tasks@.take(j as int).push(
                            entry.tasks@[j as int],
                        ));
                        lemma_requeue_push(t0, entry.tasks@.take(j as int), entry.tasks@[j as int]);
                    }
                    zadd_vec(&mut self.tasks, entry.tasks[j].0, entry.tasks[j].1);
                    j += 1;
                }
                proof {
                    assert(entry.tasks@.take(m as int) =~= entry.tasks@);
                    lemma_cleanup_dead_at(t0, wv0, hs, now, i as int);
                    assert forall|l: int| 0 <= l < i implies worker_live(
                        hs,
                        (#[trigger] workers_view(self.workers@)[l]).0,
                        now,
                    ) by {
                        assert(workers_view(self.workers@)[l] == wv0[l]);
                    }
                }
            }
        }
        proof {
            lemma_cleanup_all_live(self.tasks@, workers_view(self.workers@), hs, now);
        }
    }

    /// Records a heartbeat at `now`: the worker counts as live for the
    /// next `heartbeat_ttl` seconds.
    pub fn submit_heartbeat(&mut self, worker_id: &String, now: u64)
        requires
            now + old(self).heartbeat_ttl <= u64::MAX,
        ensures
            heartbeats_view(final(self).heartbeats@) == set_heartbeat(
                heartbeats_view(old(self).heartbeats@),
                worker_id@,
                (now + old(self).heartbeat_ttl) as u64,
            ),
            worker_live(heartbeats_view(final(self).heartbeats@), worker_id@, now) == (old(
                self,
            ).heartbeat_ttl > 0),
            final(self).tasks@ == old(self).tasks@,
            final(self).workers@ == old(self).workers@,
            final(self).results@ == old(self).results@,
            final(self).prefix == old(self).prefix,
            final(self).ttl == old(self).ttl,
            final(self).heartbeat_ttl == old(self).heartbeat_ttl,
    {
        let deadline = now + self.heartbeat_ttl;
        let ghost hv = heartbeats_view(self.heartbeats@);
        proof {
            lemma_index_of_heartbeat(hv, worker_id@);
        }
        let n = self.heartbeats.len();
        let mut j: usize = 0;
        while j < n
            invariant
                n == self.heartbeats@.len(),
                *self == *old(self),
                hv == heartbeats_view(self.heartbeats@),
                0 <= j <= n,
                forall|l: int| 0 <= l < j ==> (#[trigger] hv[l]).0 != worker_id@,
                hv.len() == n,
                forall|l: int| 0 <= l < n ==> (#[trigger] hv[l]).0 == self.heartbeats@[l].0@
                    && hv[l].1 == self.heartbeats@[l].1,
            decreases n - j,
        {
            if self.heartbeats[j].0 == *worker_id {
                proof {
                    lemma_index_of_heartbeat(hv, worker_id@);
                    assert(hv[j as int].0 == worker_id@);
                }
                self.heartbeats.set(j, (worker_id.clone(), deadline));
                proof {
                    let i = index_of_heartbeat(hv, worker_id@);
                    assert(i != -1) by {
                        if i == -1 {
                            assert(hv[j as int].0 != worker_id@);
                        }
                    }
                    assert(i == j) by {
                        if i < j {
                            assert(hv[i].0 != worker_id@);
                        }
                        if i > j {
                            assert(hv[j as int].0 != worker_id@);
                        }
                    }
                    assert(heartbeats_view(self.heartbeats@) =~= hv.update(
                        j as int,
                        (worker_id@, deadline),
                    ));
                    lemma_index_of_heartbeat(heartbeats_view(self.heartbeats@), worker_id@);
                    lemma_heartbeat_after_set(hv, worker_id@, deadline);
                }
                return;
            }
            j += 1;
        }
        self.heartbeats.push((worker_id.clone(), deadline));
        proof {
            assert(heartbeats_view(self.heartbeats@) =~= hv.push((worker_id@, deadline)));
            lemma_heartbeat_after_set(hv, worker_id@, deadline);
        }
    }
}

/// After a heartbeat write the worker's first record carries the new
/// deadline, so its liveness at any earlier moment is decided by the TTL
/// alone.
proof fn lemma_heartbeat_after_set(hs: Seq<(Seq<char>, u64)>, w: Seq<char>, deadline: u64)
    ensures
        ({
            let hs2 = set_heartbeat(hs, w, deadline);
            let i2 = index_of_heartbeat(hs2, w);
            i2 != -1 && hs2[i2] == (w, deadline)
        }),
{
    lemma_index_of_heartbeat(hs, w);
    let i = index_of_heartbeat(hs, w);
    let hs2 = set_heartbeat(hs, w, deadline);
    lemma_index_of_heartbeat(hs2, w);
    let i2 = index_of_heartbeat(hs2, w);
    if i == -1 {
        assert(hs2[hs.len() as int] == (w, deadline));
        assert(i2 != -1);
        if i2 < hs.len() {
            assert(hs[i2] == hs2[i2]);
        }
    } else {
        assert(hs2[i] == (w, deadline));
        assert(i2 != -1);
        if i2 < i {
            assert(hs[i2] == hs2[i2]);
        }
        if i2 > i {
            assert(hs2[i].0 == w);
        }
    }
}

/// Sorted-set insertion on the in-memory queue: re-score the member if it
/// is present, append it otherwise.
fn zadd_vec(q: &mut Vec<(u32, Task)>, score: u32, member: Task)
    ensures
        final(q)@ == zadd(old(q)@, score, member),
{
    proof {
        lemma_index_of_member(old(q)@, member);
    }
    let n = q.len();
    let mut j: usize = 0;
    while j < n
        invariant
            n == q@.len(),
            q@ == old(q)@,
            0 <= j <= n,
            forall|l: int| 0 <= l < j ==> (#[trigger] q@[l]).1 != member,
        decreases n - j,
    {
        if q[j].1 == member {
            proof {
                lemma_index_of_member(q@, member);
            }
            q.set(j, (score, member));
            return;
        }
        j += 1;
    }
    q.push((score, member));
}

/// String-key write on the in-memory result table: overwrite the entry
/// under the key, or append one.
fn set_result_vec(rs: &mut Vec<(u32, TaskResult)>, k: u32, v: TaskResult)
    ensures
        final(rs)@ == set_result(old(rs)@, k, v),
{
    proof {
        lemma_index_of_result(old(rs)@, k);
    }
    let n = rs.len();
    let mut j: usize = 0;
    while j < n
        invariant
            n == rs@.len(),
            rs@ == old(rs)@,
            0 <= j <= n,
            forall|l: int| 0 <= l < j ==> (#[trigger] rs@[l]).0 != k,
        decreases n - j,
    {
        if rs[j].0 == k {
            proof {
                lemma_index_of_result(rs@, k);
            }
            rs.set(j, (k, v));
            return;
        }
        j += 1;
    }
    rs.push((k, v));
}

/// Sorted-set removal on the in-memory queue: drop the first entry whose
/// member matches, if any.
fn zrem_vec(q: &mut Vec<(u32, Task)>, member: &Task)
    ensures
        final(q)@ == zrem(old(q)@, *member),
{
    proof {
        lemma_index_of_member(old(q)@, *member);
    }
    let n = q.len();
    let mut j: usize = 0;
    while j < n
        invariant
            n == q@.len(),
            q@ == old(q)@,
            0 <= j <= n,
            forall|l: int| 0 <= l < j ==> (#[trigger] q@[l]).1 != *member,
        decreases n - j,
    {
        if q[j].1 == *member {
            proof {
                lemma_index_of_member(q@, *member);
            }
            let _ = q.remove(j);
            return;
        }
        j += 1;
    }
}

} // verus!
