//! The order in which a workflow's jobs run.
use vstd::prelude::*;
use crate::graph::{member, deps_view, edges_in_range, has_cycle, is_topological_order, is_stuck_set, lemma_distinct_indices_len, order_indices};
use crate::workflow::{Job, needs_of, names_unique, is_job_name, refs_known, needs_job, is_stuck_jobs, jobs_have_cycle, is_run_order};

verus! {

/// Why the jobs cannot be ordered.
pub enum ResolveError {
    /// Two jobs carry this name.
    DuplicateJob(String),
    /// `job` needs a job named `needs`, and there is none.
    UnknownJob { job: String, needs: String },
    /// Some jobs need each other in a cycle.
    Cycle,
}

impl ResolveError {
    /// A one-line description of the error.
    pub fn message(&self) -> (r: String)
        ensures
            self is Cycle ==> r@ == "Cycle detected in job dependencies (needs)"@,
            self is UnknownJob ==> r@ == "Job needs an unknown job"@,
            self is DuplicateJob ==> r@ == "Duplicate job name"@,
    {
        broadcast use vstd::string::group_string_axioms;

        match self {
            ResolveError::DuplicateJob(_) => "Duplicate job name".to_string(),
            ResolveError::UnknownJob { .. } => "Job needs an unknown job".to_string(),
            ResolveError::Cycle => "Cycle detected in job dependencies (needs)".to_string(),
        }
    }
}

/// The `needs` list of a job, empty when absent.
fn needs_list(job: &Job) -> (r: &[String])
    ensures
        r@.map_values(|s: String| s@) == needs_of(*job),
{
    match &job.needs {
        Some(v) => v.as_slice(),
        None => &[],
    }
}

/// The index of the job named `name`.
pub(crate) fn find_job(jobs: &Vec<(String, Job)>, name: &String) -> (r: Option<usize>)
    ensures
        match r {
            Some(j) => j < jobs.len() && jobs@[j as int].0@ == name@,
            None => !is_job_name(jobs@, name@),
        },
{
    let mut j: usize = 0;
    while j < jobs.len()
        invariant
            j <= jobs.len(),
            forall|i: int| 0 <= i < j ==> #[trigger] jobs@[i].0@ != name@,
        decreases jobs.len() - j,
    {
        if jobs[j].0 == *name {
            return Some(j);
        }
        j += 1;
    }
    None
}

/// The index of a job whose name an earlier job already carries.
fn find_duplicate(jobs: &Vec<(String, Job)>) -> (r: Option<usize>)
    ensures
        match r {
            Some(j) => j < jobs.len() && exists|i: int| 0 <= i < j && jobs@[i].0@ == jobs@[j as int].0@,
            None => names_unique(jobs@),
        },
{
    let mut j: usize = 0;
    while j < jobs.len()
        invariant
            j <= jobs.len(),
            forall|a: int, b: int| 0 <= a < j && 0 <= b < j && a != b ==> #[trigger] jobs@[a].0@ != #[trigger] jobs@[b].0@,
        decreases jobs.len() - j,
    {
        let mut i: usize = 0;
        while i < j
            invariant
                i <= j < jobs.len(),
                forall|a: int| 0 <= a < i ==> #[trigger] jobs@[a].0@ != jobs@[j as int].0@,
            decreases j - i,
        {
            if jobs[i].0 == jobs[j].0 {
                return Some(j);
            }
            i += 1;
        }
        j += 1;
    }
    None
}

/// Each job's dependencies as job indices, where every name they need is known.
fn dependency_indices(jobs: &Vec<(String, Job)>) -> (r: Result<Vec<Vec<usize>>, ResolveError>)
    ensures
        match r {
            Ok(deps) => {
                &&& refs_known(jobs@)
                &&& deps.len() == jobs.len()
                &&& edges_in_range(deps_view(&deps))
                &&& forall|i: int| 0 <= i < jobs.len() ==> (#[trigger] deps@[i]).len() == needs_of(jobs@[i].1).len()
                &&& forall|i: int, k: int| 0 <= i < jobs.len() && 0 <= k < deps@[i].len()
                    ==> jobs@[#[trigger] deps@[i]@[k] as int].0@ == needs_of(jobs@[i].1)[k]
            },
            Err(ResolveError::UnknownJob { job, needs }) => {
                &&& !refs_known(jobs@)
                &&& is_job_name(jobs@, job@)
                &&& !is_job_name(jobs@, needs@)
                &&& exists|i: int| 0 <= i < jobs.len() && jobs@[i].0@ == job@ && needs_of(jobs@[i].1).contains(needs@)
            },
            Err(_) => false,
        },
{
    let mut deps: Vec<Vec<usize>> = Vec::new();
    let mut i: usize = 0;
    while i < jobs.len()
        invariant
            i <= jobs.len(),
            deps.len() == i,
            forall|a: int, k: int| 0 <= a < i && 0 <= k < deps@[a].len() ==> (#[trigger] deps@[a]@[k]) < jobs.len(),
            forall|a: int| 0 <= a < i ==> (#[trigger] deps@[a]).len() == needs_of(jobs@[a].1).len(),
            forall|a: int, k: int| 0 <= a < i && 0 <= k < deps@[a].len()
                ==> jobs@[#[trigger] deps@[a]@[k] as int].0@ == needs_of(jobs@[a].1)[k],
            forall|a: int, k: int| 0 <= a < i && 0 <= k < needs_of(jobs@[a].1).len()
                ==> is_job_name(jobs@, #[trigger] needs_of(jobs@[a].1)[k]),
        decreases jobs.len() - i,
    {
        let needs = needs_list(&jobs[i].1);
        let ghost nv = needs_of(jobs@[i as int].1);
        assert(needs@.map_values(|s: String| s@) == nv);
        let mut row: Vec<usize> = Vec::new();
        let mut k: usize = 0;
        while k < needs.len()
            invariant
                i < jobs.len(),
                nv == needs_of(jobs@[i as int].1),
                needs@.map_values(|s: String| s@) == nv,
                k <= needs.len(),
                row.len() == k,
                forall|kk: int| 0 <= kk < k ==> (#[trigger] row@[kk]) < jobs.len(),
                forall|kk: int| 0 <= kk < k ==> jobs@[#[trigger] row@[kk] as int].0@ == nv[kk],
            decreases needs.len() - k,
        {
            assert(needs@[k as int]@ == nv[k as int]);
            match find_job(jobs, &needs[k]) {
                Some(j) => {
                    row.push(j);
                },
                None => {
                    proof {
                        assert(!is_job_name(jobs@, nv[k as int]));
                        assert(is_job_name(jobs@, jobs@[i as int].0@));
                        assert(nv.contains(needs@[k as int]@));
                    }
                    return Err(ResolveError::UnknownJob { job: jobs[i].0.clone(), needs: needs[k].clone() });
                },
            }
            k += 1;
        }
        proof {
            assert forall|k: int| 0 <= k < nv.len() implies is_job_name(jobs@, #[trigger] nv[k]) by {
                assert(jobs@[row@[k] as int].0@ == nv[k]);
            }
        }
        deps.push(row);
        i += 1;
    }
    proof {
        assert forall|a: int, k: int| 0 <= a < deps_view(&deps).len() && 0 <= k < deps_view(&deps)[a].len()
            implies (#[trigger] deps_view(&deps)[a][k]) < deps_view(&deps).len() by {
            assert(deps_view(&deps)[a] == deps@[a]@);
        }
    }
    Ok(deps)
}

/// Jobs that need each other around a closed chain `w` (each job of `w` needs the
/// next, and the last needs the first: a job that needs itself is a chain of one)
/// form a cycle, which `sort_jobs` reports once names are unique and known.
pub proof fn closed_chain_is_cycle(jobs: Seq<(String, Job)>, w: Seq<int>)
    requires
        w.len() >= 1,
        forall|i: int| 0 <= i < w.len() ==> 0 <= #[trigger] w[i] < jobs.len(),
        forall|i: int| 0 <= i < w.len() - 1 ==> needs_job(jobs, #[trigger] w[i], w[i + 1]),
        needs_job(jobs, w.last(), w[0]),
    ensures
        jobs_have_cycle(jobs),
{
    let s = Set::new(|x: int| w.contains(x));
    assert(s.contains(w[0]));
    assert forall|j: int| #[trigger] member(s, j) implies 0 <= j < jobs.len() && exists|i: int|
        s.contains(i) && needs_job(jobs, j, i) by {
        let a = choose|a: int| 0 <= a < w.len() && w[a] == j;
        if a < w.len() - 1 {
            assert(s.contains(w[a + 1]));
            assert(needs_job(jobs, w[a], w[a + 1]));
        } else {
            assert(s.contains(w[0]));
        }
    }
    assert(is_stuck_jobs(jobs, s));
}

/// No job of a stuck set `s` is named among the first `p` entries of a run order.
proof fn lemma_stuck_jobs_absent_from_prefix(jobs: Seq<(String, Job)>, o: Seq<Seq<char>>, s: Set<int>, p: int)
    requires
        is_run_order(jobs, o),
        is_stuck_jobs(jobs, s),
        0 <= p <= o.len(),
    ensures
        forall|b: int, j: int| 0 <= b < p && member(s, j) ==> #[trigger] o[b] != #[trigger] jobs[j].0@,
    decreases p,
{
    if p > 0 {
        lemma_stuck_jobs_absent_from_prefix(jobs, o, s, p - 1);
        let b = p - 1;
        assert forall|j: int| member(s, j) implies #[trigger] o[b] != jobs[j].0@ by {
            if o[b] == jobs[j].0@ {
                let i = choose|i: int| s.contains(i) && needs_job(jobs, j, i);
                assert(member(s, i));
                assert(o.contains(jobs[i].0@));
                let a = choose|a: int| 0 <= a < o.len() && o[a] == jobs[i].0@;
                assert(a < b);
            }
        }
    }
}

/// When some jobs need each other in a cycle, no order of the jobs runs each
/// after every job it needs.
pub proof fn cycle_has_no_run_order(jobs: Seq<(String, Job)>, o: Seq<Seq<char>>)
    requires
        jobs_have_cycle(jobs),
    ensures
        !is_run_order(jobs, o),
{
    if is_run_order(jobs, o) {
        let s = choose|s: Set<int>| is_stuck_jobs(jobs, s);
        let j = choose|j: int| s.contains(j);
        assert(member(s, j));
        assert(o.contains(jobs[j].0@));
        let b = choose|b: int| 0 <= b < o.len() && o[b] == jobs[j].0@;
        lemma_stuck_jobs_absent_from_prefix(jobs, o, s, o.len() as int);
    }
}

/// `g` holds, for each job, the indices of the jobs named in its `needs`.
spec fn indexes_needs(jobs: Seq<(String, Job)>, g: Seq<Seq<usize>>) -> bool {
    &&& g.len() == jobs.len()
    &&& forall|i: int| 0 <= i < g.len() ==> (#[trigger] g[i]).len() == needs_of(jobs[i].1).len()
    &&& forall|i: int, k: int|
        0 <= i < g.len() && 0 <= k < g[i].len() ==> (#[trigger] g[i][k]) < g.len()
            && jobs[g[i][k] as int].0@ == needs_of(jobs[i].1)[k]
}

proof fn lemma_cycle_transfer(jobs: Seq<(String, Job)>, g: Seq<Seq<usize>>)
    requires
        names_unique(jobs),
        indexes_needs(jobs, g),
    ensures
        jobs_have_cycle(jobs) <==> has_cycle(g),
{
    if jobs_have_cycle(jobs) {
        lemma_cycle_to_indices(jobs, g);
    }
    if has_cycle(g) {
        lemma_cycle_to_names(jobs, g);
    }
}

proof fn lemma_cycle_to_indices(jobs: Seq<(String, Job)>, g: Seq<Seq<usize>>)
    requires
        names_unique(jobs),
        indexes_needs(jobs, g),
        jobs_have_cycle(jobs),
    ensures
        has_cycle(g),
{
    {
        let s = choose|s: Set<int>| is_stuck_jobs(jobs, s);
        assert forall|j: int| #[trigger] member(s, j) implies 0 <= j < g.len() && exists|k: int|
            0 <= k < g[j].len() && s.contains(g[j][k] as int) by {
            let i = choose|i: int| s.contains(i) && needs_job(jobs, j, i);
            let k = choose|k: int| 0 <= k < needs_of(jobs[j].1).len() && needs_of(jobs[j].1)[k] == jobs[i].0@;
            assert(member(s, i));
            assert(g[j][k] < g.len());
            assert(jobs[g[j][k] as int].0@ == jobs[i].0@);
            assert(g[j][k] as int == i);
        }
        assert(is_stuck_set(g, s));
    }
}

proof fn lemma_cycle_to_names(jobs: Seq<(String, Job)>, g: Seq<Seq<usize>>)
    requires
        indexes_needs(jobs, g),
        has_cycle(g),
    ensures
        jobs_have_cycle(jobs),
{
    {
        let s = choose|s: Set<int>| is_stuck_set(g, s);
        assert forall|j: int| #[trigger] member(s, j) implies 0 <= j < jobs.len() && exists|i: int|
            s.contains(i) && needs_job(jobs, j, i) by {
            let k = choose|k: int| 0 <= k < g[j].len() && s.contains(g[j][k] as int);
            let i = g[j][k] as int;
            assert(needs_of(jobs[j].1)[k] == jobs[i].0@);
            assert(needs_job(jobs, j, i));
        }
        assert(is_stuck_jobs(jobs, s));
    }
}

proof fn lemma_run_order(jobs: Seq<(String, Job)>, g: Seq<Seq<usize>>, idx: Seq<usize>, o: Seq<Seq<char>>)
    requires
        names_unique(jobs),
        indexes_needs(jobs, g),
        is_topological_order(g, idx),
        jobs.len() <= usize::MAX,
        o.len() == idx.len(),
        forall|c: int| 0 <= c < o.len() ==> #[trigger] o[c] == jobs[idx[c] as int].0@,
    ensures
        is_run_order(jobs, o),
{
    let n = jobs.len();
    lemma_distinct_indices_len(idx, n as usize);
    assert forall|a: int, c: int| 0 <= a < o.len() && 0 <= c < o.len() && a != c implies o[a] != o[c] by {
        assert(o[a] == jobs[idx[a] as int].0@);
        assert(o[c] == jobs[idx[c] as int].0@);
        assert(idx[a] != idx[c]);
    }
    assert forall|i: int| 0 <= i < n implies o.contains(#[trigger] jobs[i].0@) by {
        assert(idx.contains(i as usize));
        let c = choose|c: int| 0 <= c < idx.len() && idx[c] == i as usize;
        assert(o[c] == jobs[i].0@);
    }
    assert forall|c: int| 0 <= c < o.len() implies is_job_name(jobs, #[trigger] o[c]) by {
        assert(jobs[idx[c] as int].0@ == o[c]);
    }
    assert forall|i: int, j: int, a: int, c: int|
        0 <= i < n && 0 <= j < n && 0 <= a < o.len() && 0 <= c < o.len()
            && #[trigger] needs_job(jobs, i, j) && #[trigger] o[c] == jobs[i].0@
            && #[trigger] o[a] == jobs[j].0@ implies a < c by {
        assert(o[c] == jobs[idx[c] as int].0@);
        assert(o[a] == jobs[idx[a] as int].0@);
        assert(idx[c] as int == i);
        assert(idx[a] as int == j);
        let k = choose|k: int| 0 <= k < needs_of(jobs[i].1).len() && needs_of(jobs[i].1)[k] == jobs[j].0@;
        assert(jobs[g[i][k] as int].0@ == jobs[j].0@);
        assert(g[i][k] as int == j);
        assert(idx.take(c).contains(g[idx[c] as int][k]));
        let a2 = choose|a2: int| 0 <= a2 < c && idx.take(c)[a2] == g[i][k];
        assert(idx[a2] == idx[a]);
    }
}

/// Orders the jobs so that each runs after every job it needs.
///
/// Fails with `DuplicateJob` when two jobs share a name, otherwise with
/// `UnknownJob` when a job needs a name that no job carries, otherwise with
/// `Cycle` exactly when the jobs need each other in a cycle.
pub fn sort_jobs(jobs: &Vec<(String, Job)>) -> (r: Result<Vec<String>, ResolveError>)
    ensures
        !names_unique(jobs@) <==> r matches Err(ResolveError::DuplicateJob(_)),
        names_unique(jobs@) && !refs_known(jobs@) <==> r matches Err(ResolveError::UnknownJob { .. }),
        names_unique(jobs@) && refs_known(jobs@) ==> (r is Ok <==> !jobs_have_cycle(jobs@)),
        r matches Err(ResolveError::Cycle) ==> jobs_have_cycle(jobs@),
        match r {
            Ok(order) => is_run_order(jobs@, order@.map_values(|s: String| s@)),
            Err(ResolveError::DuplicateJob(name)) => exists|i: int, j: int|
                0 <= i < j < jobs.len() && jobs@[i].0@ == name@ && jobs@[j].0@ == name@,
            Err(ResolveError::UnknownJob { job, needs }) => !is_job_name(jobs@, needs@) && exists|i: int|
                0 <= i < jobs.len() && jobs@[i].0@ == job@ && needs_of(jobs@[i].1).contains(needs@),
            Err(ResolveError::Cycle) => true,
        },
{
    if let Some(j) = find_duplicate(jobs) {
        return Err(ResolveError::DuplicateJob(jobs[j].0.clone()));
    }
    let deps = match dependency_indices(jobs) {
        Ok(d) => d,
        Err(e) => {
            return Err(e);
        },
    };
    let ghost g = deps_view(&deps);
    proof {
        assert forall|i: int| 0 <= i < g.len() implies (#[trigger] g[i]) == deps@[i]@ by {}
        lemma_cycle_transfer(jobs@, g);
    }
    match order_indices(&deps) {
        Some(idx) => {
            let mut out: Vec<String> = Vec::new();
            let mut b: usize = 0;
            while b < idx.len()
                invariant
                    b <= idx.len(),
                    idx.len() == jobs.len(),
                    forall|c: int| 0 <= c < idx.len() ==> (#[trigger] idx@[c]) < jobs.len(),
                    out.len() == b,
                    forall|c: int| 0 <= c < b ==> (#[trigger] out@[c])@ == jobs@[idx@[c] as int].0@,
                decreases idx.len() - b,
            {
                out.push(jobs[idx[b]].0.clone());
                b += 1;
            }
            proof {
                lemma_run_order(jobs@, g, idx@, out@.map_values(|s: String| s@));
            }
            Ok(out)
        },
        None => Err(ResolveError::Cycle),
    }
}

} // verus!
