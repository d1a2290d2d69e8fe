//! The decisions of a run: which step comes next, what it runs with, and how a
//! step's outcome moves the run on. Running the steps is the caller's part.
use vstd::prelude::*;
use crate::env::{env_map, keys_unique, layer_map, opt_view, resolve_env, resolve_working_dir};
use crate::resolver::{find_job, sort_jobs, ResolveError};
use crate::workflow::{is_run_order, jobs_have_cycle, names_unique, refs_known, EnvVars, Job, Workflow};

verus! {

/// What became of one step.
pub enum StepOutcome {
    /// The command exited with success.
    Succeeded,
    /// The command exited without success, with this code if it had one.
    Failed(Option<i32>),
    /// The command could not be started.
    SpawnFailed(String),
    /// The step's working directory does not exist or is not a directory.
    MissingDirectory(String),
}

/// Why a run stopped before its end.
pub enum AbortReason {
    Resolve(ResolveError),
    MissingDirectory(String),
    SpawnFailed(String),
    StepFailed(Option<i32>),
}

/// Where a run stands.
pub enum RunStatus {
    /// The step at this position of the plan is next.
    Running(usize),
    /// Every step succeeded.
    Completed,
    /// The run stopped for good.
    Aborted(AbortReason),
}

/// The steps of job `j`, as `(job, step)` positions.
pub open spec fn job_steps(jobs: Seq<(String, Job)>, j: usize) -> Seq<(usize, usize)> {
    Seq::new(jobs[j as int].1.steps@.len(), |s: int| (j, s as usize))
}

/// Every step of the jobs in `order`, job after job, each job's steps in sequence.
pub open spec fn plan_of(jobs: Seq<(String, Job)>, order: Seq<usize>) -> Seq<(usize, usize)>
    decreases order.len(),
{
    if order.len() == 0 {
        Seq::empty()
    } else {
        plan_of(jobs, order.drop_last()) + job_steps(jobs, order.last())
    }
}

/// The names of the jobs at the indices of `order`.
pub open spec fn names_at(jobs: Seq<(String, Job)>, order: Seq<usize>) -> Seq<Seq<char>> {
    order.map_values(|j: usize| jobs[j as int].0@)
}

/// The status after a step of a plan of `n` steps ends with `outcome`: success
/// moves to the next step or completes the run; anything else aborts it; a run
/// that is not running stays as it is.
pub open spec fn status_after(n: nat, status: RunStatus, outcome: StepOutcome) -> RunStatus {
    match status {
        RunStatus::Running(p) => match outcome {
            StepOutcome::Succeeded => if p + 1 < n {
                RunStatus::Running((p + 1) as usize)
            } else {
                RunStatus::Completed
            },
            StepOutcome::Failed(c) => RunStatus::Aborted(AbortReason::StepFailed(c)),
            StepOutcome::SpawnFailed(m) => RunStatus::Aborted(AbortReason::SpawnFailed(m)),
            StepOutcome::MissingDirectory(d) => RunStatus::Aborted(AbortReason::MissingDirectory(d)),
        },
        _ => status,
    }
}

/// The status after a series of outcomes, one after another.
pub open spec fn status_after_all(n: nat, status: RunStatus, outcomes: Seq<StepOutcome>) -> RunStatus
    decreases outcomes.len(),
{
    if outcomes.len() == 0 {
        status
    } else {
        status_after_all(n, status_after(n, status, outcomes[0]), outcomes.drop_first())
    }
}

/// A run of a workflow: the resolved order of its jobs, the steps that follow from
/// it, and where the run stands.
pub struct Run {
    order: Vec<usize>,
    plan: Vec<(usize, usize)>,
    status: RunStatus,
}

impl Run {
    pub closed spec fn order_view(&self) -> Seq<usize> {
        self.order@
    }

    pub closed spec fn plan_view(&self) -> Seq<(usize, usize)> {
        self.plan@
    }

    pub closed spec fn status_view(&self) -> RunStatus {
        self.status
    }

    /// A running run points into its plan.
    pub open spec fn wf(&self) -> bool {
        self.status_view() is Running ==> self.status_view()->Running_0 < self.plan_view().len()
    }

    /// Resolves the order of the jobs and lays out their steps. The run is aborted
    /// with the resolver's error when no order exists; otherwise it starts at the
    /// first step, or is completed at once when there is no step.
    pub fn start(wf: &Workflow) -> (r: Run)
        ensures
            r.wf(),
            r.status_view() is Aborted ==> r.status_view()->Aborted_0 is Resolve,
            r.status_view() is Aborted <==> !(names_unique(wf.jobs@) && refs_known(wf.jobs@)
                && !jobs_have_cycle(wf.jobs@)),
            r.status_view() == RunStatus::Aborted(AbortReason::Resolve(ResolveError::Cycle)) <==> names_unique(
                wf.jobs@,
            ) && refs_known(wf.jobs@) && jobs_have_cycle(wf.jobs@),
            !(r.status_view() is Aborted) ==> {
                &&& is_run_order(wf.jobs@, names_at(wf.jobs@, r.order_view()))
                &&& forall|b: int| 0 <= b < r.order_view().len() ==> #[trigger] r.order_view()[b] < wf.jobs.len()
                &&& r.plan_view() == plan_of(wf.jobs@, r.order_view())
                &&& r.status_view() == if r.plan_view().len() > 0 {
                    RunStatus::Running(0)
                } else {
                    RunStatus::Completed
                }
            },
    {
        let jobs = &wf.jobs;
        let names = match sort_jobs(jobs) {
            Ok(names) => names,
            Err(e) => {
                return Run { order: Vec::new(), plan: Vec::new(), status: RunStatus::Aborted(AbortReason::Resolve(e)) };
            },
        };
        let ghost nv = names@.map_values(|s: String| s@);
        assert(is_run_order(jobs@, nv));
        let mut order: Vec<usize> = Vec::new();
        let mut plan: Vec<(usize, usize)> = Vec::new();
        let mut b: usize = 0;
        while b < names.len()
            invariant
                nv == names@.map_values(|s: String| s@),
                is_run_order(jobs@, nv),
                names_unique(jobs@),
                b <= names.len(),
                order.len() == b,
                forall|c: int| 0 <= c < b ==> #[trigger] order@[c] < jobs.len(),
                forall|c: int| 0 <= c < b ==> jobs@[#[trigger] order@[c] as int].0@ == nv[c],
                plan@ == plan_of(jobs@, order@),
            decreases names.len() - b,
        {
            assert(names@[b as int]@ == nv[b as int]);
            let j = match find_job(jobs, &names[b]) {
                Some(j) => j,
                None => {
                    // Not reached: every name of the order is a job's name.
                    assert(crate::workflow::is_job_name(jobs@, nv[b as int]));
                    assert(false);
                    return Run { order: Vec::new(), plan: Vec::new(), status: RunStatus::Completed };
                },
            };
            let ghost old_order = order@;
            let steps_len = jobs[j].1.steps.len();
            let mut s: usize = 0;
            while s < steps_len
                invariant
                    j < jobs.len(),
                    steps_len == jobs@[j as int].1.steps.len(),
                    s <= steps_len,
                    plan@ == plan_of(jobs@, old_order) + job_steps(jobs@, j).take(s as int),
                decreases steps_len - s,
            {
                plan.push((j, s));
                proof {
                    assert(job_steps(jobs@, j).take(s + 1) =~= job_steps(jobs@, j).take(s as int).push((j, s)));
                }
                s += 1;
            }
            order.push(j);
            proof {
                assert(order@.drop_last() =~= old_order);
                assert(job_steps(jobs@, j).take(s as int) =~= job_steps(jobs@, j));
            }
            b += 1;
        }
        proof {
            assert(names_at(jobs@, order@) =~= nv);
        }
        let status = if plan.len() > 0 {
            RunStatus::Running(0)
        } else {
            RunStatus::Completed
        };
        Run { order, plan, status }
    }

    /// The `(job, step)` position to run next, while the run is running.
    pub fn current_step(&self) -> (r: Option<(usize, usize)>)
        requires
            self.wf(),
        ensures
            r == match self.status_view() {
                RunStatus::Running(p) => Some(self.plan_view()[p as int]),
                _ => None::<(usize, usize)>,
            },
    {
        match &self.status {
            RunStatus::Running(p) => Some(self.plan[*p]),
            _ => None,
        }
    }

    /// Moves the run on by the outcome of the current step.
    pub fn record(&mut self, outcome: StepOutcome)
        requires
            old(self).wf(),
        ensures
            final(self).wf(),
            final(self).order_view() == old(self).order_view(),
            final(self).plan_view() == old(self).plan_view(),
            final(self).status_view() == status_after(old(self).plan_view().len(), old(self).status_view(), outcome),
    {
        let next = match &self.status {
            RunStatus::Running(p) => match outcome {
                StepOutcome::Succeeded => if *p < self.plan.len() - 1 {
                    RunStatus::Running(*p + 1)
                } else {
                    RunStatus::Completed
                },
                StepOutcome::Failed(c) => RunStatus::Aborted(AbortReason::StepFailed(c)),
                StepOutcome::SpawnFailed(m) => RunStatus::Aborted(AbortReason::SpawnFailed(m)),
                StepOutcome::MissingDirectory(d) => RunStatus::Aborted(AbortReason::MissingDirectory(d)),
            },
            _ => return,
        };
        self.status = next;
    }

    /// Where the run stands.
    pub fn status(&self) -> (r: &RunStatus)
        ensures
            *r == self.status_view(),
    {
        &self.status
    }

    /// The indices of the jobs, in the order they run.
    pub fn order(&self) -> (r: &Vec<usize>)
        ensures
            r@ == self.order_view(),
    {
        &self.order
    }

    /// Every step of the run, as `(job, step)` positions, in the order they run.
    pub fn plan(&self) -> (r: &Vec<(usize, usize)>)
        ensures
            r@ == self.plan_view(),
    {
        &self.plan
    }
}

/// What a step runs with.
pub struct StepSetup {
    pub name: Option<String>,
    pub run: String,
    pub env: EnvVars,
    pub working_directory: Option<String>,
}

/// The command, environment and working directory of step `step` of job `job`:
/// the environment layers workflow, job and step, each overriding the one before;
/// the directory is the step's, else the job's, else none (the current one).
pub fn step_setup(wf: &Workflow, job: usize, step: usize) -> (r: StepSetup)
    requires
        job < wf.jobs.len(),
        step < wf.jobs@[job as int].1.steps.len(),
    ensures
        r.run@ == wf.jobs@[job as int].1.steps@[step as int].run@,
        opt_view(r.name) == opt_view(wf.jobs@[job as int].1.steps@[step as int].name),
        keys_unique(r.env@),
        env_map(r.env@) == layer_map(wf.env).union_prefer_right(layer_map(wf.jobs@[job as int].1.env)).union_prefer_right(
            layer_map(wf.jobs@[job as int].1.steps@[step as int].env),
        ),
        opt_view(r.working_directory) == (if wf.jobs@[job as int].1.steps@[step as int].working_directory.is_some() {
            opt_view(wf.jobs@[job as int].1.steps@[step as int].working_directory)
        } else {
            opt_view(wf.jobs@[job as int].1.working_directory)
        }),
{
    let j = &wf.jobs[job].1;
    let st = &j.steps[step];
    let env = resolve_env(&wf.env, &j.env, &st.env);
    let working_directory = resolve_working_dir(&j.working_directory, &st.working_directory);
    let name = match &st.name {
        Some(n) => Some(n.clone()),
        None => None,
    };
    StepSetup { name, run: st.run.clone(), env, working_directory }
}

/// Once aborted, a run stays aborted, for the same reason, whatever follows.
pub proof fn aborted_stays_aborted(n: nat, reason: AbortReason, rest: Seq<StepOutcome>)
    ensures
        status_after_all(n, RunStatus::Aborted(reason), rest) == RunStatus::Aborted(reason),
    decreases rest.len(),
{
    if rest.len() > 0 {
        aborted_stays_aborted(n, reason, rest.drop_first());
    }
}

/// A step that does not succeed aborts the whole run: no outcome after it moves
/// the run on, so no later step of the plan runs, whatever job it belongs to.
pub proof fn failure_aborts_run(n: nat, p: usize, outcome: StepOutcome, rest: Seq<StepOutcome>)
    requires
        p < n,
        !(outcome is Succeeded),
    ensures
        status_after(n, RunStatus::Running(p), outcome) is Aborted,
        status_after_all(n, RunStatus::Running(p), seq![outcome] + rest) == status_after(
            n,
            RunStatus::Running(p),
            outcome,
        ),
{
    let first = status_after(n, RunStatus::Running(p), outcome);
    assert((seq![outcome] + rest).drop_first() =~= rest);
    aborted_stays_aborted(n, first->Aborted_0, rest);
}

/// A run from step `p` of `n` completes only once each of its remaining steps
/// has succeeded, one after another.
pub proof fn completed_only_after_every_step(n: nat, p: usize, outcomes: Seq<StepOutcome>)
    requires
        p < n,
        status_after_all(n, RunStatus::Running(p), outcomes) == RunStatus::Completed,
    ensures
        outcomes.len() >= n - p,
        forall|i: int| 0 <= i < n - p ==> #[trigger] outcomes[i] is Succeeded,
    decreases outcomes.len(),
{
    if outcomes.len() == 0 {
    } else {
        let next = status_after(n, RunStatus::Running(p), outcomes[0]);
        if !(outcomes[0] is Succeeded) {
            aborted_stays_aborted(n, next->Aborted_0, outcomes.drop_first());
        } else if p + 1 < n {
            completed_only_after_every_step(n, (p + 1) as usize, outcomes.drop_first());
            assert forall|i: int| 0 <= i < n - p implies #[trigger] outcomes[i] is Succeeded by {
                if i > 0 {
                    assert(outcomes[i] == outcomes.drop_first()[i - 1]);
                }
            }
        }
    }
}

} // verus!
