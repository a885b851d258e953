use xtomate::structure::{parse_dependency, Dependency, Task, WorkFlow};

#[test]
fn test_workflow() {
    let xtomate_version = "0.1.0";
    let mut workflow = WorkFlow::new("test".to_string(), xtomate_version.to_string(), None);
    workflow.add_task("task1".to_string(), "echo Hello".to_string(), None);
    workflow.add_task(
        "task2".to_string(),
        "echo World".to_string(),
        Some(vec![Dependency::Simple("task1".to_string())]),
    );
    assert_eq!(
        workflow.get_task("task1").unwrap().command,
        Some("echo Hello".to_string())
    );
    assert_eq!(
        workflow.get_task("task2").unwrap().dependencies,
        Some(vec![Dependency::Simple("task1".to_string())])
    );
}

#[test]
fn test_task() {
    let task = Task {
        command: Some("echo Hello".to_string()),
        plugin: None,
        template: None,
        config: None,
        run: None,
        retry: None,
        retry_delay: None,
        env: None,
        dependencies: Some(vec![Dependency::Simple("task1".to_string())]),
        on_start: None,
        on_finish: None,
        on_error: None,
    };
    assert_eq!(
        task.get_dependencies(),
        Some(&vec![Dependency::Simple("task1".to_string())])
    );
}

#[test]
fn add_task_replaces_task_of_same_name() {
    let mut workflow = WorkFlow::new("w".to_string(), "*".to_string(), None);
    workflow.add_task("a".to_string(), "echo 1".to_string(), None);
    workflow.add_task("a".to_string(), "echo 2".to_string(), None);
    assert_eq!(workflow.get_tasks().len(), 1);
    assert_eq!(workflow.get_task("a").unwrap().command, Some("echo 2".to_string()));
    assert!(workflow.get_task("b").is_none());
}

#[test]
fn parse_dependency_splits_at_first_colon() {
    assert_eq!(parse_dependency("template:build"), ("template", "build"));
    assert_eq!(parse_dependency("plugin:a:b"), ("plugin", "a:b"));
    assert_eq!(parse_dependency("plain"), ("task", "plain"));
    assert_eq!(parse_dependency(":x"), ("", "x"));
}

#[test]
fn get_template_finds_by_name() {
    let mut workflow = WorkFlow::new("w".to_string(), "*".to_string(), None);
    workflow.templates = Some(vec![xtomate::structure::TaskTemplate {
        name: "t".to_string(),
        command: Some("echo".to_string()),
        retry: None,
        retry_delay: None,
        run: None,
        env: None,
        dependencies: None,
    }]);
    assert_eq!(workflow.get_template("t").unwrap().command, Some("echo".to_string()));
    assert!(workflow.get_template("u").is_none());
}
