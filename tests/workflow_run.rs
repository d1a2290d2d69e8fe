use laxci::engine::{step_setup, AbortReason, Run, RunStatus, StepOutcome};
use laxci::env::{resolve_env, resolve_working_dir};
use laxci::graph::order_indices;
use laxci::resolver::{sort_jobs, ResolveError};
use laxci::workflow::{EnvVars, Job, Step, Workflow};

fn step(run: &str) -> Step {
    Step { name: None, run: run.to_string(), working_directory: None, env: None }
}

fn job(needs: &[&str], steps: &[&str]) -> Job {
    Job {
        steps: steps.iter().map(|s| step(s)).collect(),
        env: None,
        working_directory: None,
        needs: if needs.is_empty() { None } else { Some(needs.iter().map(|s| s.to_string()).collect()) },
    }
}

fn env(pairs: &[(&str, &str)]) -> EnvVars {
    pairs.iter().map(|(k, v)| (k.to_string(), v.to_string())).collect()
}

fn lookup(e: &EnvVars, k: &str) -> Option<String> {
    e.iter().find(|(key, _)| key == k).map(|(_, v)| v.clone())
}

fn pos(order: &[String], name: &str) -> usize {
    order.iter().position(|n| n == name).unwrap()
}

fn workflow(jobs: Vec<(&str, Job)>) -> Workflow {
    Workflow { name: None, env: None, jobs: jobs.into_iter().map(|(n, j)| (n.to_string(), j)).collect() }
}

#[test]
fn chain_is_ordered() {
    let jobs = vec![
        ("c".to_string(), job(&["b"], &[])),
        ("a".to_string(), job(&[], &[])),
        ("b".to_string(), job(&["a"], &[])),
    ];
    let order = sort_jobs(&jobs).ok().unwrap();
    assert_eq!(order, vec!["a".to_string(), "b".to_string(), "c".to_string()]);
}

#[test]
fn diamond_puts_dependencies_first() {
    let jobs = vec![
        ("deploy".to_string(), job(&["test", "lint"], &[])),
        ("test".to_string(), job(&["build"], &[])),
        ("lint".to_string(), job(&["build"], &[])),
        ("build".to_string(), job(&[], &[])),
    ];
    let order = sort_jobs(&jobs).ok().unwrap();
    assert_eq!(order.len(), 4);
    for (name, j) in &jobs {
        for d in j.needs.clone().unwrap_or_default() {
            assert!(pos(&order, &d) < pos(&order, name));
        }
    }
}

#[test]
fn empty_job_set_orders_to_nothing() {
    let jobs: Vec<(String, Job)> = Vec::new();
    assert_eq!(sort_jobs(&jobs).ok().unwrap(), Vec::<String>::new());
}

#[test]
fn two_job_cycle_is_reported() {
    let jobs = vec![("a".to_string(), job(&["b"], &[])), ("b".to_string(), job(&["a"], &[]))];
    assert!(matches!(sort_jobs(&jobs), Err(ResolveError::Cycle)));
}

#[test]
fn self_dependency_is_a_cycle() {
    let jobs = vec![("a".to_string(), job(&[], &[])), ("b".to_string(), job(&["b"], &[]))];
    assert!(matches!(sort_jobs(&jobs), Err(ResolveError::Cycle)));
}

#[test]
fn longer_cycle_behind_a_root_is_reported() {
    let jobs = vec![
        ("root".to_string(), job(&[], &[])),
        ("x".to_string(), job(&["root", "z"], &[])),
        ("y".to_string(), job(&["x"], &[])),
        ("z".to_string(), job(&["y"], &[])),
    ];
    let r = sort_jobs(&jobs);
    assert!(matches!(r, Err(ResolveError::Cycle)));
    assert_eq!(r.err().unwrap().message(), "Cycle detected in job dependencies (needs)");
}

#[test]
fn unknown_need_is_rejected() {
    let jobs = vec![("a".to_string(), job(&["ghost"], &[]))];
    match sort_jobs(&jobs) {
        Err(ResolveError::UnknownJob { job, needs }) => {
            assert_eq!(job, "a");
            assert_eq!(needs, "ghost");
        }
        _ => panic!("expected an unknown job"),
    }
}

#[test]
fn duplicate_name_is_rejected() {
    let jobs = vec![("a".to_string(), job(&[], &[])), ("a".to_string(), job(&[], &[]))];
    match sort_jobs(&jobs) {
        Err(ResolveError::DuplicateJob(name)) => assert_eq!(name, "a"),
        _ => panic!("expected a duplicate"),
    }
}

#[test]
fn index_order_and_cycle() {
    let deps = vec![vec![1, 2], vec![2], vec![]];
    assert_eq!(order_indices(&deps), Some(vec![2, 1, 0]));
    let cyclic = vec![vec![1], vec![0], vec![]];
    assert_eq!(order_indices(&cyclic), None);
}

#[test]
fn environment_precedence() {
    let r = resolve_env(
        &Some(env(&[("A", "1"), ("B", "2")])),
        &Some(env(&[("B", "3"), ("C", "4")])),
        &Some(env(&[("C", "5")])),
    );
    assert_eq!(r.len(), 3);
    assert_eq!(lookup(&r, "A"), Some("1".to_string()));
    assert_eq!(lookup(&r, "B"), Some("3".to_string()));
    assert_eq!(lookup(&r, "C"), Some("5".to_string()));
}

#[test]
fn environment_absent_layers() {
    let r = resolve_env(&None, &Some(env(&[("K", "v"), ("K", "w")])), &None);
    assert_eq!(r, env(&[("K", "w")]));
    assert!(resolve_env(&None, &None, &None).is_empty());
}

#[test]
fn working_directory_precedence() {
    let job_dir = Some("/job".to_string());
    let step_dir = Some("/step".to_string());
    assert_eq!(resolve_working_dir(&job_dir, &step_dir), Some("/step".to_string()));
    assert_eq!(resolve_working_dir(&job_dir, &None), Some("/job".to_string()));
    assert_eq!(resolve_working_dir(&None, &None), None);
}

#[test]
fn step_setup_merges_layers() {
    let mut j = job(&[], &["make"]);
    j.env = Some(env(&[("B", "3")]));
    j.working_directory = Some("/job".to_string());
    j.steps[0].env = Some(env(&[("C", "5")]));
    j.steps[0].name = Some("compile".to_string());
    let mut wf = workflow(vec![("build", j)]);
    wf.env = Some(env(&[("A", "1"), ("B", "2")]));
    let s = step_setup(&wf, 0, 0);
    assert_eq!(s.run, "make");
    assert_eq!(s.name, Some("compile".to_string()));
    assert_eq!(s.working_directory, Some("/job".to_string()));
    assert_eq!(lookup(&s.env, "A"), Some("1".to_string()));
    assert_eq!(lookup(&s.env, "B"), Some("3".to_string()));
    assert_eq!(lookup(&s.env, "C"), Some("5".to_string()));
}

#[test]
fn missing_directory_aborts_before_the_step() {
    let wf = workflow(vec![("a", job(&[], &["true", "true"]))]);
    let mut run = Run::start(&wf);
    assert_eq!(run.current_step(), Some((0, 0)));
    run.record(StepOutcome::MissingDirectory("/nope".to_string()));
    assert!(matches!(run.status(), RunStatus::Aborted(AbortReason::MissingDirectory(d)) if d == "/nope"));
    assert_eq!(run.current_step(), None);
}

#[test]
fn independent_job_never_runs_after_a_failure() {
    let wf = workflow(vec![("x", job(&[], &["false"])), ("y", job(&[], &["echo y"]))]);
    let mut run = Run::start(&wf);
    assert_eq!(run.plan().len(), 2);
    let (first, _) = run.current_step().unwrap();
    run.record(StepOutcome::Failed(Some(1)));
    assert!(matches!(run.status(), RunStatus::Aborted(AbortReason::StepFailed(Some(1)))));
    assert_eq!(run.current_step(), None);
    run.record(StepOutcome::Succeeded);
    assert!(matches!(run.status(), RunStatus::Aborted(_)));
    assert!(first == 0 || first == 1);
}

#[test]
fn build_then_test_completes() {
    let wf = workflow(vec![("test", job(&["build"], &["echo bye"])), ("build", job(&[], &["echo hi"]))]);
    let mut run = Run::start(&wf);
    assert_eq!(run.order(), &vec![1, 0]);
    let mut ran = Vec::new();
    while let Some((j, s)) = run.current_step() {
        ran.push(step_setup(&wf, j, s).run);
        run.record(StepOutcome::Succeeded);
    }
    assert_eq!(ran, vec!["echo hi".to_string(), "echo bye".to_string()]);
    assert!(matches!(run.status(), RunStatus::Completed));
}

#[test]
fn cycle_aborts_with_no_step() {
    let wf = workflow(vec![("a", job(&["b"], &["echo a"])), ("b", job(&["a"], &["echo b"]))]);
    let run = Run::start(&wf);
    assert!(matches!(run.status(), RunStatus::Aborted(AbortReason::Resolve(ResolveError::Cycle))));
    assert_eq!(run.current_step(), None);
}

#[test]
fn exit_status_one_stops_later_jobs() {
    let wf = workflow(vec![
        ("first", job(&[], &["exit 1", "echo never"])),
        ("second", job(&["first"], &["echo never"])),
    ]);
    let mut run = Run::start(&wf);
    assert_eq!(run.plan(), &vec![(0, 0), (0, 1), (1, 0)]);
    assert_eq!(run.current_step(), Some((0, 0)));
    run.record(StepOutcome::Failed(Some(1)));
    assert_eq!(run.current_step(), None);
    assert!(matches!(run.status(), RunStatus::Aborted(AbortReason::StepFailed(Some(1)))));
}

#[test]
fn jobs_without_steps_complete_at_once() {
    let wf = workflow(vec![("a", job(&[], &[])), ("b", job(&["a"], &[]))]);
    let run = Run::start(&wf);
    assert_eq!(run.order().len(), 2);
    assert!(matches!(run.status(), RunStatus::Completed));
}

#[test]
fn spawn_failure_aborts() {
    let wf = workflow(vec![("a", job(&[], &["x"]))]);
    let mut run = Run::start(&wf);
    run.record(StepOutcome::SpawnFailed("no shell".to_string()));
    assert!(matches!(run.status(), RunStatus::Aborted(AbortReason::SpawnFailed(m)) if m == "no shell"));
}
