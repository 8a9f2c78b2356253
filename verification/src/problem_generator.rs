//! The problem store: an append-only population of problems keyed by a
//! dense integer, with the solutions registered for them.
//!
//! Problem keys are densely numbered starting at zero, so the store holds
//! the problems as a vector indexed by key, and the solutions as a vector
//! of the same length with one optional slot per key.  "Pick an unsolved
//! problem" returns the problem with the smallest key that has no solution;
//! this ordering is what gives handouts their FIFO fairness.

use vstd::prelude::*;

use crate::errors::TaskError;

verus! {

/// An opaque input payload, keyed by a dense integer.  The key is also the
/// identity; a problem is immutable after creation.
#[derive(Clone, Copy, Debug, PartialEq, Eq, Structural)]
pub struct Problem {
    /// The dense key.
    pub x: u64,
}

/// The opaque output payload registered for exactly one problem key.
#[derive(Clone, Copy, Debug, PartialEq, Eq, Structural)]
pub struct Solution {
    /// The computed result carried back by a worker.
    pub x_squared: u64,
}

/// How many keys of a solution snapshot hold a registered solution.
pub open spec fn num_solved(s: Seq<Option<Solution>>) -> nat
    decreases s.len(),
{
    if s.len() == 0 {
        0
    } else {
        num_solved(s.drop_last()) + if s.last() is Some {
            1nat
        } else {
            0nat
        }
    }
}

/// The smallest key without a solution, or the length when every key has
/// one.
pub open spec fn first_unsolved(s: Seq<Option<Solution>>) -> int
    decreases s.len(),
{
    if s.len() == 0 {
        0
    } else if s[0] is None {
        0
    } else {
        1 + first_unsolved(s.drop_first())
    }
}

/// A snapshot where exactly the keys below `k` are solved.
pub open spec fn solved_prefix(s: Seq<Option<Solution>>, k: int) -> bool {
    &&& 0 <= k <= s.len()
    &&& forall|j: int| 0 <= j < s.len() ==> ((#[trigger] s[j]) is Some <==> j < k)
}

pub proof fn lemma_num_solved_le_len(s: Seq<Option<Solution>>)
    ensures
        num_solved(s) <= s.len(),
    decreases s.len(),
{
    if s.len() > 0 {
        lemma_num_solved_le_len(s.drop_last());
    }
}

/// Registering a solution raises the count only when the key was unsolved;
/// overwriting an existing solution leaves the count unchanged.
pub proof fn lemma_num_solved_update(s: Seq<Option<Solution>>, i: int, sol: Solution)
    requires
        0 <= i < s.len(),
    ensures
        num_solved(s.update(i, Some(sol))) == num_solved(s) + if s[i] is Some {
            0int
        } else {
            1int
        },
    decreases s.len(),
{
    let t = s.update(i, Some(sol));
    if i == s.len() - 1 {
        assert(t.drop_last() =~= s.drop_last());
    } else {
        assert(t.drop_last() =~= s.drop_last().update(i, Some(sol)));
        lemma_num_solved_update(s.drop_last(), i, sol);
    }
}

pub proof fn lemma_num_solved_push(s: Seq<Option<Solution>>, v: Option<Solution>)
    ensures
        num_solved(s.push(v)) == num_solved(s) + if v is Some {
            1int
        } else {
            0int
        },
{
    assert(s.push(v).drop_last() =~= s);
}

/// The characterization of `first_unsolved`: it is the unique key below
/// which every key is solved and which itself is not, or the length when
/// the snapshot is fully solved.
pub proof fn lemma_first_unsolved(s: Seq<Option<Solution>>)
    ensures
        0 <= first_unsolved(s) <= s.len(),
        first_unsolved(s) < s.len() ==> s[first_unsolved(s)] is None,
        forall|j: int| 0 <= j < first_unsolved(s) ==> (#[trigger] s[j]) is Some,
    decreases s.len(),
{
    if s.len() > 0 && s[0] is Some {
        lemma_first_unsolved(s.drop_first());
        assert forall|j: int| 0 <= j < first_unsolved(s) implies (#[trigger] s[j]) is Some by {
            if j > 0 {
                assert(s.drop_first()[j - 1] == s[j]);
            }
        }
    }
}

/// A fully solved snapshot is exactly one whose solution count equals its
/// length.
pub proof fn lemma_num_solved_full(s: Seq<Option<Solution>>)
    ensures
        num_solved(s) == s.len() <==> (forall|j: int| 0 <= j < s.len() ==> (#[trigger] s[j]) is Some),
    decreases s.len(),
{
    if s.len() > 0 {
        lemma_num_solved_full(s.drop_last());
        lemma_num_solved_le_len(s.drop_last());
        if num_solved(s) == s.len() {
            assert forall|j: int| 0 <= j < s.len() implies (#[trigger] s[j]) is Some by {
                if j < s.len() - 1 {
                    assert(s.drop_last()[j] == s[j]);
                }
            }
        } else if forall|j: int| 0 <= j < s.len() ==> (#[trigger] s[j]) is Some {
            assert forall|j: int| 0 <= j < s.drop_last().len() implies (#[trigger] s.drop_last()[j]) is Some by {
                assert(s.drop_last()[j] == s[j]);
            }
        }
    }
}

/// An unsolved key exists exactly while fewer solutions than problems are
/// registered.
pub proof fn lemma_unsolved_iff_not_full(s: Seq<Option<Solution>>)
    ensures
        first_unsolved(s) < s.len() <==> num_solved(s) < s.len(),
{
    lemma_first_unsolved(s);
    lemma_num_solved_full(s);
    lemma_num_solved_le_len(s);
    if first_unsolved(s) == s.len() {
        assert(forall|j: int| 0 <= j < s.len() ==> (#[trigger] s[j]) is Some);
    }
}

/// The append-only store of problems and of the solutions registered for
/// them.  Key `i` of `solutions` belongs to the problem with key `i`.
pub struct ProblemGenerator {
    /// The generated problems; the problem with key `i` sits at index `i`.
    pub problems: Vec<Problem>,
    /// One slot per problem key, filled when a solution is registered.
    pub solutions: Vec<Option<Solution>>,
}

impl ProblemGenerator {
    /// The dense-key layout: one solution slot per problem, and each
    /// problem stored under its own key.
    pub open spec fn wf(&self) -> bool {
        &&& self.solutions@.len() == self.problems@.len()
        &&& forall|i: int|
            0 <= i < self.problems@.len() ==> (#[trigger] self.problems@[i]).x == i
    }

    /// An empty store.
    pub fn new() -> (pg: ProblemGenerator)
        ensures
            pg.wf(),
            pg.problems@.len() == 0,
            pg.solutions@.len() == 0,
    {
        ProblemGenerator { problems: Vec::new(), solutions: Vec::new() }
    }

    /// Appends one problem whose key equals the current problem count.  The
    /// count grows by one; the registered solutions stay as they are.
    pub fn generate_problem(&mut self)
        requires
            old(self).wf(),
        ensures
            final(self).wf(),
            final(self).problems@ == old(self).problems@.push(
                Problem { x: old(self).problems@.len() as u64 },
            ),
            final(self).solutions@ == old(self).solutions@.push(None),
            num_solved(final(self).solutions@) == num_solved(old(self).solutions@),
    {
        let x = self.problems.len() as u64;
        self.problems.push(Problem { x });
        self.solutions.push(None);
        proof {
            lemma_num_solved_push(old(self).solutions@, None);
        }
    }

    /// Records a solution under the problem's key, overwriting silently if
    /// one is already registered (last writer wins).  Fails exactly when
    /// the store knows no problem with that key.
    pub fn register_solution(&mut self, problem: &Problem, solution: &Solution) -> (r: Result<
        (),
        TaskError,
    >)
        requires
            old(self).wf(),
        ensures
            final(self).wf(),
            final(self).problems@ == old(self).problems@,
            r is Ok <==> (problem.x as int) < old(self).problems@.len(),
            r is Ok ==> final(self).solutions@ == old(self).solutions@.update(
                problem.x as int,
                Some(*solution),
            ),
            r is Err ==> final(self).solutions@ == old(self).solutions@ && r == Err::<
                (),
                TaskError,
            >(TaskError::ProblemNotFound),
    {
        if problem.x < self.problems.len() as u64 {
            let i = problem.x as usize;
            self.solutions.set(i, Some(*solution));
            Ok(())
        } else {
            Err(TaskError::ProblemNotFound)
        }
    }

    /// Returns the problem with the smallest key that has no registered
    /// solution, or nothing exactly when every problem is solved — that is,
    /// exactly when the solution count has caught up with the problem
    /// count.
    pub fn get_unsolved_problem(&self) -> (r: Option<Problem>)
        requires
            self.wf(),
        ensures
            r is Some <==> num_solved(self.solutions@) < self.problems@.len(),
            r is Some ==> {
                &&& r->0.x as int == first_unsolved(self.solutions@)
                &&& self.solutions@[r->0.x as int] is None
                &&& forall|j: int| 0 <= j < r->0.x as int ==> (#[trigger] self.solutions@[j]) is Some
            },
    {
        proof {
            lemma_first_unsolved(self.solutions@);
            lemma_unsolved_iff_not_full(self.solutions@);
        }
        let n = self.solutions.len();
        let mut i: usize = 0;
        while i < n
            invariant
                self.wf(),
                n == self.solutions@.len(),
                0 <= i <= n,
                forall|j: int| 0 <= j < i ==> (#[trigger] self.solutions@[j]) is Some,
                first_unsolved(self.solutions@) < self.solutions@.len() <==> num_solved(
                    self.solutions@,
                ) < self.problems@.len(),
                first_unsolved(self.solutions@) < self.solutions@.len() ==> self.solutions@[
                    first_unsolved(self.solutions@)
                ] is None,
            decreases n - i,
        {
            if self.solutions[i].is_none() {
                proof {
                    lemma_first_unsolved(self.solutions@);
                }
                return Some(self.problems[i]);
            }
            i += 1;
        }
        None
    }

    /// How many problems still lack a solution.
    pub fn unsolved_count(&self) -> (r: usize)
        requires
            self.wf(),
        ensures
            r == self.problems@.len() - num_solved(self.solutions@),
    {
        let n = self.solutions.len();
        let mut solved: usize = 0;
        let mut i: usize = 0;
        while i < n
            invariant
                n == self.solutions@.len(),
                0 <= i <= n,
                solved == num_solved(self.solutions@.take(i as int)),
                solved <= i,
            decreases n - i,
        {
            proof {
                assert(self.solutions@.take(i + 1int).drop_last() =~= self.solutions@.take(
                    i as int,
                ));
            }
            if self.solutions[i].is_some() {
                solved += 1;
            }
            i += 1;
        }
        proof {
            assert(self.solutions@.take(n as int) =~= self.solutions@);
            lemma_num_solved_le_len(self.solutions@);
        }
        n - solved
    }
}

/// In a well-formed store the problems are never outnumbered by the
/// registered solutions.
pub proof fn lemma_solutions_never_exceed_problems(pg: ProblemGenerator)
    requires
        pg.wf(),
    ensures
        num_solved(pg.solutions@) <= pg.problems@.len(),
{
    lemma_num_solved_le_len(pg.solutions@);
}

/// Registering a solution for one key twice leaves exactly one solution
/// registered there — the later one — and the second registration leaves
/// the solution count unchanged.
pub proof fn lemma_resubmission_keeps_one_solution(
    s: Seq<Option<Solution>>,
    x: int,
    sol1: Solution,
    sol2: Solution,
)
    requires
        0 <= x < s.len(),
    ensures
        s.update(x, Some(sol1)).update(x, Some(sol2))[x] == Some(sol2),
        num_solved(s.update(x, Some(sol1)).update(x, Some(sol2))) == num_solved(
            s.update(x, Some(sol1)),
        ),
{
    lemma_num_solved_update(s.update(x, Some(sol1)), x, sol2);
}

/// On a snapshot whose first `k` keys are solved, the next handout works
/// key `k`, and solving it extends the solved prefix by one.
pub proof fn lemma_drain_step(s: Seq<Option<Solution>>, k: int, sol: Solution)
    requires
        solved_prefix(s, k),
        k < s.len(),
    ensures
        first_unsolved(s) == k,
        solved_prefix(s.update(k, Some(sol)), k + 1),
{
    lemma_first_unsolved(s);
    let f = first_unsolved(s);
    if f < k {
        assert(s[f] is Some);
    }
    if f > k {
        assert(s[k] is Some);
    }
}

/// The solved snapshots reached by repeatedly handing out the smallest
/// unsolved key and registering a solution for it.
pub open spec fn apply_drain(s: Seq<Option<Solution>>, sols: Seq<Solution>) -> Seq<
    Option<Solution>,
>
    decreases sols.len(),
{
    if sols.len() == 0 {
        s
    } else {
        apply_drain(s.update(first_unsolved(s), Some(sols[0])), sols.drop_first())
    }
}

/// Draining a store with `k` solved keys through one handout-and-submission
/// round per remaining problem solves every key: the solutions end up
/// registered for exactly the keys `0` to `N - 1`, one each.
pub proof fn lemma_drain_solves_all(s: Seq<Option<Solution>>, sols: Seq<Solution>, k: int)
    requires
        solved_prefix(s, k),
        sols.len() == s.len() - k,
    ensures
        solved_prefix(apply_drain(s, sols), s.len() as int),
        num_solved(apply_drain(s, sols)) == s.len(),
    decreases sols.len(),
{
    if sols.len() == 0 {
        lemma_num_solved_full(s);
    } else {
        lemma_drain_step(s, k, sols[0]);
        lemma_drain_solves_all(s.update(k, Some(sols[0])), sols.drop_first(), k + 1);
    }
}

} // verus!
