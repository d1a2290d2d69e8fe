//! The in-memory workflow: jobs, their steps, and the settings they override.
use vstd::prelude::*;

verus! {

/// Environment variables as `(key, value)` entries; a later entry for a key
/// overrides an earlier one.
pub type EnvVars = Vec<(String, String)>;

/// One shell command of a job.
pub struct Step {
    pub name: Option<String>,
    pub run: String,
    pub working_directory: Option<String>,
    pub env: Option<EnvVars>,
}

/// A sequence of steps, with the settings they share and the jobs that must run first.
pub struct Job {
    pub steps: Vec<Step>,
    pub env: Option<EnvVars>,
    pub working_directory: Option<String>,
    pub needs: Option<Vec<String>>,
}

/// A named collection of jobs, each under its own name.
pub struct Workflow {
    pub name: Option<String>,
    pub env: Option<EnvVars>,
    pub jobs: Vec<(String, Job)>,
}

/// The names of the jobs that `job` needs.
pub open spec fn needs_of(job: Job) -> Seq<Seq<char>> {
    match job.needs {
        Some(v) => v@.map_values(|s: String| s@),
        None => Seq::empty(),
    }
}

/// No two jobs share a name.
pub open spec fn names_unique(jobs: Seq<(String, Job)>) -> bool {
    forall|i: int, j: int|
        0 <= i < jobs.len() && 0 <= j < jobs.len() && i != j ==> #[trigger] jobs[i].0@ != #[trigger] jobs[j].0@
}

pub open spec fn is_job_name(jobs: Seq<(String, Job)>, x: Seq<char>) -> bool {
    exists|i: int| 0 <= i < jobs.len() && #[trigger] jobs[i].0@ == x
}

/// Every name in a `needs` list is the name of a job.
pub open spec fn refs_known(jobs: Seq<(String, Job)>) -> bool {
    forall|i: int, k: int|
        0 <= i < jobs.len() && 0 <= k < needs_of(jobs[i].1).len() ==> is_job_name(
            jobs,
            #[trigger] needs_of(jobs[i].1)[k],
        )
}

/// Job `i` names job `j` among the jobs it needs.
pub open spec fn needs_job(jobs: Seq<(String, Job)>, i: int, j: int) -> bool {
    needs_of(jobs[i].1).contains(jobs[j].0@)
}

/// `s` is a nonempty set of jobs each of which needs a job of `s`.
pub open spec fn is_stuck_jobs(jobs: Seq<(String, Job)>, s: Set<int>) -> bool {
    &&& exists|j: int| s.contains(j)
    &&& forall|j: int|
        #[trigger] crate::graph::member(s, j) ==> 0 <= j < jobs.len() && exists|i: int|
            s.contains(i) && needs_job(jobs, j, i)
}

/// Some jobs need each other in a cycle: there is a nonempty set of jobs each of
/// which needs a job of the set (in a finite graph, the same thing).
pub open spec fn jobs_have_cycle(jobs: Seq<(String, Job)>) -> bool {
    exists|s: Set<int>| is_stuck_jobs(jobs, s)
}

/// `order` names every job exactly once, each after every job it needs.
pub open spec fn is_run_order(jobs: Seq<(String, Job)>, order: Seq<Seq<char>>) -> bool {
    &&& order.len() == jobs.len()
    &&& order.no_duplicates()
    &&& forall|i: int| 0 <= i < jobs.len() ==> order.contains(#[trigger] jobs[i].0@)
    &&& forall|b: int| 0 <= b < order.len() ==> is_job_name(jobs, #[trigger] order[b])
    &&& forall|i: int, j: int, a: int, b: int|
        0 <= i < jobs.len() && 0 <= j < jobs.len() && 0 <= a < order.len() && 0 <= b < order.len()
            && #[trigger] needs_job(jobs, i, j) && #[trigger] order[b] == jobs[i].0@
            && #[trigger] order[a] == jobs[j].0@ ==> a < b
}

} // verus!
