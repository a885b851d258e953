use xtomate::planner::{plan, PlanError};
use xtomate::placeholders::ConfigValue;
use xtomate::structure::{Dependency, WorkFlow};

fn simple(n: &str) -> Dependency {
    Dependency::Simple(n.to_string())
}

fn workflow(tasks: &[(&str, Vec<Dependency>)]) -> WorkFlow {
    let mut w = WorkFlow::new("w".to_string(), "*".to_string(), None);
    for (name, deps) in tasks {
        let deps: Vec<Dependency> = deps
            .iter()
            .map(|d| match d {
                Dependency::Simple(n) => Dependency::Simple(n.clone()),
                Dependency::Status(n, ConfigValue::Text(s)) => {
                    Dependency::Status(n.clone(), ConfigValue::Text(s.clone()))
                }
                _ => unreachable!(),
            })
            .collect();
        w.add_task(name.to_string(), format!("echo {}", name), Some(deps));
    }
    w
}

fn names(stages: &[Vec<String>]) -> Vec<Vec<&str>> {
    stages.iter().map(|s| s.iter().map(|n| n.as_str()).collect()).collect()
}

#[test]
fn two_task_chain() {
    let w = workflow(&[("A", vec![]), ("B", vec![simple("A")])]);
    let stages = plan(&w).ok().unwrap();
    assert_eq!(names(&stages), vec![vec!["A"], vec!["B"]]);
}

#[test]
fn diamond() {
    let w = workflow(&[
        ("A", vec![]),
        ("B", vec![simple("A")]),
        ("C", vec![simple("A")]),
        ("D", vec![simple("B"), simple("C")]),
    ]);
    let stages = plan(&w).ok().unwrap();
    assert_eq!(stages.len(), 3);
    assert_eq!(names(&stages)[0], vec!["A"]);
    let mut middle = names(&stages)[1].clone();
    middle.sort();
    assert_eq!(middle, vec!["B", "C"]);
    assert_eq!(names(&stages)[2], vec!["D"]);
}

#[test]
fn cycle_is_detected() {
    let w = workflow(&[("A", vec![simple("B")]), ("B", vec![simple("A")])]);
    assert!(matches!(plan(&w), Err(PlanError::CycleDetected)));
}

#[test]
fn self_loop_is_detected() {
    let w = workflow(&[("A", vec![simple("A")])]);
    assert!(matches!(plan(&w), Err(PlanError::CycleDetected)));
}

#[test]
fn unknown_dependency_is_reported() {
    let w = workflow(&[("A", vec![simple("ghost")])]);
    match plan(&w) {
        Err(PlanError::UnknownDependency(n)) => assert_eq!(n, "ghost"),
        _ => panic!("expected an unknown dependency"),
    }
}

#[test]
fn status_edges_order_like_simple_ones() {
    let w = workflow(&[
        ("B", vec![Dependency::Status("A".to_string(), ConfigValue::Text("failure".to_string()))]),
        ("A", vec![]),
    ]);
    let stages = plan(&w).ok().unwrap();
    assert_eq!(names(&stages), vec![vec!["A"], vec!["B"]]);
}

#[test]
fn non_runnable_tasks_stay_out_of_stages() {
    let mut w = workflow(&[("A", vec![]), ("B", vec![]), ("C", vec![simple("A")])]);
    for (name, task) in w.tasks.iter_mut() {
        if name == "B" {
            task.run = Some(false);
        }
    }
    let stages = plan(&w).ok().unwrap();
    assert_eq!(names(&stages), vec![vec!["A"], vec!["C"]]);
}

#[test]
fn runnable_task_on_non_runnable_one_cannot_be_planned() {
    let mut w = workflow(&[("A", vec![]), ("B", vec![simple("A")])]);
    w.tasks[0].1.run = Some(false);
    assert!(matches!(plan(&w), Err(PlanError::CycleDetected)));
}

#[test]
fn empty_workflow_has_no_stages() {
    let w = workflow(&[]);
    assert_eq!(plan(&w).ok().unwrap().len(), 0);
}

#[test]
fn stages_follow_longest_dependency_chain() {
    let w = workflow(&[
        ("D", vec![simple("A"), simple("C")]),
        ("C", vec![simple("B")]),
        ("B", vec![simple("A")]),
        ("A", vec![]),
        ("E", vec![]),
    ]);
    let stages = plan(&w).ok().unwrap();
    assert_eq!(names(&stages), vec![vec!["A", "E"], vec!["B"], vec!["C"], vec!["D"]]);
}
