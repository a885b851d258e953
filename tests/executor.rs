use xtomate::executor::{
    body_kind, check_dependency_status, hook_action, needs_run, next_attempt, parse_status, requirement,
    settle_dependency, BodyKind, HookKind, HookList, RunError, Step, TaskRun,
};
use xtomate::placeholders::ConfigValue;
use xtomate::structure::{DepStatus, Dependency, Task};

fn status(name: &str, s: &str) -> Dependency {
    Dependency::Status(name.to_string(), ConfigValue::Text(s.to_string()))
}

fn task() -> Task {
    Task {
        command: None,
        template: None,
        retry: None,
        retry_delay: None,
        run: None,
        plugin: None,
        on_start: None,
        on_finish: None,
        on_error: None,
        config: None,
        env: None,
        dependencies: None,
    }
}

/// Runs the retry decisions over a list of outcomes; returns attempts made
/// and the final outcome.
fn drive(retry: usize, outcomes: &[bool]) -> (usize, bool) {
    let mut attempt = 0;
    loop {
        let ok = outcomes[attempt];
        attempt += 1;
        if let Some(done) = next_attempt(retry, attempt, ok) {
            return (attempt, done);
        }
    }
}

#[test]
fn status_names() {
    assert_eq!(parse_status("success"), Some(DepStatus::Success));
    assert_eq!(parse_status("failure"), Some(DepStatus::Failure));
    assert_eq!(parse_status("fail"), Some(DepStatus::Failure));
    assert_eq!(parse_status("any"), Some(DepStatus::Any));
    assert_eq!(parse_status("Success"), None);
}

#[test]
fn requirement_of_edges() {
    assert_eq!(requirement(&Dependency::Simple("A".to_string())), Some(DepStatus::Success));
    assert_eq!(requirement(&status("A", "fail")), Some(DepStatus::Failure));
    assert_eq!(requirement(&status("A", "maybe")), None);
}

#[test]
fn dependency_status_require_failure() {
    let dep = status("A", "failure");
    assert!(check_dependency_status(Some(Some(false)), DepStatus::Failure));
    assert_eq!(settle_dependency(&dep, Some(Some(false))), Ok(()));
    assert_eq!(settle_dependency(&dep, Some(Some(true))), Err(RunError::DependencyNotSatisfied));
}

#[test]
fn dependency_status_cells() {
    assert!(check_dependency_status(Some(Some(true)), DepStatus::Success));
    assert!(!check_dependency_status(Some(None), DepStatus::Success));
    assert!(!check_dependency_status(Some(None), DepStatus::Failure));
    assert!(check_dependency_status(Some(None), DepStatus::Any));
    assert!(!check_dependency_status(None, DepStatus::Any));
    assert_eq!(
        settle_dependency(&Dependency::Simple("ghost".to_string()), None),
        Err(RunError::DependencyNotSatisfied)
    );
}

#[test]
fn needs_run_only_for_known_tasks_without_outcome() {
    assert!(needs_run(Some(None)));
    assert!(!needs_run(Some(Some(true))));
    assert!(!needs_run(None));
}

#[test]
fn hook_kinds() {
    let h = hook_action(&Dependency::Simple("template:build".to_string())).unwrap();
    assert_eq!((h.0, h.1.as_str()), (HookKind::Template, "build"));
    let h = hook_action(&Dependency::Simple("cleanup".to_string())).unwrap();
    assert_eq!((h.0, h.1.as_str()), (HookKind::Task, "cleanup"));
    let h = hook_action(&status("plugin:notify", "any")).unwrap();
    assert_eq!((h.0, h.1.as_str()), (HookKind::Plugin, "notify"));
    assert_eq!(
        hook_action(&Dependency::Simple("shell:ls".to_string())).err(),
        Some(RunError::UnknownHookKind)
    );
}

#[test]
fn body_kinds_in_priority_order() {
    let mut t = task();
    assert_eq!(body_kind(&t), Err(RunError::TaskIllFormed));
    t.plugin = Some("p".to_string());
    assert_eq!(body_kind(&t), Ok(BodyKind::Plugin));
    t.command = Some("ls".to_string());
    assert_eq!(body_kind(&t), Ok(BodyKind::Command));
    t.template = Some("t".to_string());
    assert_eq!(body_kind(&t), Ok(BodyKind::Template));
}

#[test]
fn retry_eventually_succeeds() {
    assert_eq!(drive(5, &[false, false, true, true, true, true]), (3, true));
}

#[test]
fn retry_stops_after_n_plus_one_attempts() {
    assert_eq!(drive(2, &[false, false, false, true]), (3, false));
    assert_eq!(drive(0, &[false]), (1, false));
    assert_eq!(drive(0, &[true]), (1, true));
}

fn life(task: &Task, success: bool) -> Vec<Step> {
    let mut run = TaskRun::new();
    let mut steps = Vec::new();
    loop {
        let step = run.next_step(task);
        steps.push(step);
        match step {
            Step::RunBody => run.body_done(success),
            Step::Finished => return steps,
            _ => {}
        }
    }
}

#[test]
fn task_life_on_success_skips_error_hooks() {
    let mut t = task();
    t.command = Some("true".to_string());
    t.on_start = Some(vec![Dependency::Simple("a".to_string())]);
    t.on_error = Some(vec![Dependency::Simple("e".to_string())]);
    t.on_finish = Some(vec![Dependency::Simple("f".to_string()), Dependency::Simple("g".to_string())]);
    assert_eq!(
        life(&t, true),
        vec![
            Step::Hook(HookList::OnStart, 0),
            Step::RunBody,
            Step::Commit(true),
            Step::Hook(HookList::OnFinish, 0),
            Step::Hook(HookList::OnFinish, 1),
            Step::Finished,
        ]
    );
}

#[test]
fn task_life_on_failure_runs_error_hooks_before_commit() {
    let mut t = task();
    t.command = Some("false".to_string());
    t.on_error = Some(vec![Dependency::Simple("e".to_string())]);
    assert_eq!(
        life(&t, false),
        vec![Step::RunBody, Step::Hook(HookList::OnError, 0), Step::Commit(false), Step::Finished]
    );
}
