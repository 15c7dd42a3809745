use vstd::prelude::*;
use crate::graph::{
    Unit, UnitGraph, deps_of, graph_wf, dependents, any_marked, dependents_of,
    lemma_closure_step,
};

verus! {

/// Where a unit's job stands. A pending unit is ready once all its
/// dependencies have succeeded.
#[derive(Clone, Copy, Debug, PartialEq, Eq, Structural)]
pub enum JobState {
    Pending,
    Running,
    Succeeded,
    Failed,
}

/// The state of one build: a job state per unit of the graph, the size of
/// the token pool, and how many jobs hold a token.
#[derive(Clone, Debug)]
pub struct Scheduler {
    pub states: Vec<JobState>,
    pub budget: usize,
    pub running: usize,
}

/// The number of running jobs.
pub open spec fn count_running(s: Seq<JobState>) -> nat
    decreases s.len(),
{
    if s.len() == 0 {
        0
    } else {
        count_running(s.drop_last()) + if s.last() == JobState::Running {
            1nat
        } else {
            0nat
        }
    }
}

/// Unit `u` is pending and every unit it depends on has succeeded.
pub open spec fn ready(d: Seq<Seq<usize>>, s: Seq<JobState>, u: int) -> bool {
    &&& 0 <= u < s.len()
    &&& s[u] == JobState::Pending
    &&& forall|k: int|
        0 <= k < d[u].len() ==> d[u][k] < s.len() && s[#[trigger] d[u][k] as int]
            == JobState::Succeeded
}

/// The states after unit `u` failed: `u` and every pending unit that depends
/// on it, directly or transitively, are failed; nothing else changes.
pub open spec fn after_failure(d: Seq<Seq<usize>>, s: Seq<JobState>, u: int) -> Seq<JobState> {
    Seq::new(
        s.len(),
        |v: int|
            if v == u || (dependents(d, u)[v] && s[v] == JobState::Pending) {
                JobState::Failed
            } else {
                s[v]
            },
    )
}

pub proof fn lemma_count_update(s: Seq<JobState>, i: int, x: JobState)
    requires
        0 <= i < s.len(),
    ensures
        count_running(s.update(i, x)) + (if s[i] == JobState::Running {
            1int
        } else {
            0int
        }) == count_running(s) + (if x == JobState::Running {
            1int
        } else {
            0int
        }),
    decreases s.len(),
{
    let t = s.update(i, x);
    if i < s.len() - 1 {
        lemma_count_update(s.drop_last(), i, x);
        assert(t.drop_last() =~= s.drop_last().update(i, x));
    } else {
        assert(t.drop_last() =~= s.drop_last());
    }
}

impl Scheduler {
    /// The scheduler's invariant over a graph: one state per unit, and the
    /// number of running jobs is counted and never exceeds the token budget.
    pub open spec fn wf(&self, g: Seq<Unit>) -> bool {
        &&& graph_wf(deps_of(g))
        &&& self.states@.len() == g.len()
        &&& self.running == count_running(self.states@)
        &&& self.running <= self.budget
    }

    /// A build of the stale units: stale units wait, fresh ones count as
    /// already succeeded. The token budget holds at least one token.
    pub fn new(g: &UnitGraph, stale: &Vec<bool>, budget: usize) -> (r: Scheduler)
        requires
            budget >= 1,
            g.wf(),
            stale@.len() == g.units@.len(),
        ensures
            r.wf(g.units@),
            r.budget == budget,
            r.running == 0,
            forall|u: int|
                0 <= u < stale@.len() ==> #[trigger] r.states@[u] == if stale@[u] {
                    JobState::Pending
                } else {
                    JobState::Succeeded
                },
    {
        let mut states: Vec<JobState> = Vec::new();
        let n = stale.len();
        let mut u: usize = 0;
        while u < n
            invariant
                n == stale@.len(),
                u <= n,
                states@.len() == u,
                count_running(states@) == 0,
                forall|j: int|
                    0 <= j < u ==> #[trigger] states@[j] == if stale@[j] {
                        JobState::Pending
                    } else {
                        JobState::Succeeded
                    },
            decreases n - u,
        {
            let ghost before = states@;
            if stale[u] {
                states.push(JobState::Pending);
            } else {
                states.push(JobState::Succeeded);
            }
            assert(states@.drop_last() =~= before);
            u = u + 1;
        }
        Scheduler { states, budget, running: 0 }
    }

    /// Whether a token is free for another job.
    pub fn has_token(&self) -> (r: bool)
        ensures
            r == (self.running < self.budget),
    {
        self.running < self.budget
    }

    /// The first unit that is ready to run, if any.
    pub fn next_ready(&self, g: &UnitGraph) -> (r: Option<usize>)
        requires
            self.wf(g.units@),
        ensures
            r is Some ==> ready(deps_of(g.units@), self.states@, r->Some_0 as int),
            r is Some ==> forall|v: int|
                0 <= v < r->Some_0 ==> !ready(deps_of(g.units@), self.states@, v),
            r is None ==> forall|v: int|
                0 <= v < g.units@.len() ==> !ready(deps_of(g.units@), self.states@, v),
    {
        let ghost d = deps_of(g.units@);
        let n = self.states.len();
        let mut u: usize = 0;
        while u < n
            invariant
                n == self.states@.len(),
                n == g.units@.len(),
                d == deps_of(g.units@),
                u <= n,
                forall|v: int| 0 <= v < u ==> !ready(d, self.states@, v),
            decreases n - u,
        {
            assert(d[u as int] == g.units@[u as int].deps@);
            if self.states[u] == JobState::Pending {
                let deps = &g.units[u].deps;
                let mut all_done = true;
                let mut k: usize = 0;
                while k < deps.len()
                    invariant
                        n == self.states@.len(),
                        u < n,
                        d[u as int] == deps@,
                        k <= deps@.len(),
                        all_done == forall|j: int|
                            0 <= j < k ==> deps@[j] < n && self.states@[#[trigger] deps@[j] as int]
                                == JobState::Succeeded,
                    decreases deps@.len() - k,
                {
                    let x = deps[k];
                    if !(x < n && self.states[x] == JobState::Succeeded) {
                        all_done = false;
                    }
                    k = k + 1;
                }
                if all_done {
                    return Some(u);
                }
            }
            u = u + 1;
        }
        None
    }

    /// Starts the job of a ready unit; a token must be free.
    pub fn start(&mut self, g: &UnitGraph, u: usize)
        requires
            old(self).wf(g.units@),
            ready(deps_of(g.units@), old(self).states@, u as int),
            old(self).running < old(self).budget,
        ensures
            final(self).wf(g.units@),
            final(self).budget == old(self).budget,
            final(self).states@ == old(self).states@.update(u as int, JobState::Running),
            final(self).running == old(self).running + 1,
    {
        proof {
            lemma_count_update(self.states@, u as int, JobState::Running);
        }
        self.states.set(u, JobState::Running);
        self.running = self.running + 1;
    }

    /// Records that a running job finished. On success the unit succeeds; on
    /// failure the unit and every pending unit depending on it fail, and
    /// every other unit keeps its state.
    pub fn finish(&mut self, g: &UnitGraph, u: usize, success: bool)
        requires
            old(self).wf(g.units@),
            u < old(self).states@.len(),
            old(self).states@[u as int] == JobState::Running,
        ensures
            final(self).wf(g.units@),
            final(self).budget == old(self).budget,
            final(self).running == old(self).running - 1,
            success ==> final(self).states@ == old(self).states@.update(
                u as int,
                JobState::Succeeded,
            ),
            !success ==> final(self).states@ == after_failure(
                deps_of(g.units@),
                old(self).states@,
                u as int,
            ),
    {
        if success {
            proof {
                lemma_count_update(self.states@, u as int, JobState::Succeeded);
            }
            self.states.set(u, JobState::Succeeded);
            self.running = self.running - 1;
            return;
        }
        let ghost s0 = self.states@;
        let ghost d = deps_of(g.units@);
        let marks = dependents_of(g, u);
        proof {
            lemma_count_update(self.states@, u as int, JobState::Failed);
        }
        self.states.set(u, JobState::Failed);
        self.running = self.running - 1;
        let n = self.states.len();
        proof {
            crate::graph::lemma_closure_len(d, crate::graph::only(d.len(), u as int), d.len());
        }
        let mut v: usize = 0;
        while v < n
            invariant
                n == self.states@.len(),
                n == s0.len(),
                n == g.units@.len(),
                d == deps_of(g.units@),
                marks@ == dependents(d, u as int),
                marks@.len() == n,
                graph_wf(d),
                self.budget == old(self).budget,
                self.running == old(self).running - 1,
                u < n,
                v <= n,
                self.running == count_running(self.states@),
                forall|j: int|
                    0 <= j < n ==> #[trigger] self.states@[j] == if j < v {
                        after_failure(d, s0, u as int)[j]
                    } else if j == u {
                        JobState::Failed
                    } else {
                        s0[j]
                    },
            decreases n - v,
        {
            if v != u && marks[v] && self.states[v] == JobState::Pending {
                proof {
                    lemma_count_update(self.states@, v as int, JobState::Failed);
                }
                self.states.set(v, JobState::Failed);
            }
            v = v + 1;
        }
        assert(self.states@ =~= after_failure(d, s0, u as int));
    }
}

/// The number of running jobs never exceeds the token budget.
pub proof fn lemma_running_within_budget(s: Scheduler, g: Seq<Unit>)
    requires
        s.wf(g),
    ensures
        count_running(s.states@) <= s.budget,
{
}

/// A failure leaves independent branches alone: a unit that does not depend
/// on the failed unit keeps its state, and if it was ready to run it still is.
pub proof fn lemma_failure_spares_independent(
    d: Seq<Seq<usize>>,
    s: Seq<JobState>,
    u: int,
    v: int,
)
    requires
        graph_wf(d),
        s.len() == d.len(),
        0 <= u < d.len(),
        0 <= v < d.len(),
        !dependents(d, u)[v],
    ensures
        after_failure(d, s, u)[v] == s[v],
        ready(d, s, v) ==> ready(d, after_failure(d, s, u), v),
{
    let c = dependents(d, u);
    lemma_closure_step(d, crate::graph::only(d.len(), u), v);
    let t = after_failure(d, s, u);
    if ready(d, s, v) {
        assert forall|k: int| 0 <= k < d[v].len() implies d[v][k] < t.len() && t[#[trigger] d[v][k]
            as int] == JobState::Succeeded by {
            lemma_closure_step(d, crate::graph::only(d.len(), u), d[v][k] as int);
            if c[d[v][k] as int] {
                assert(any_marked(d[v], c));
            }
        }
    }
}

} // verus!
