use pixi_task_runner::graph::{TaskGraph, TaskNode};
use pixi_task_runner::task::{join_path, watch_patterns, watch_target, working_directory, WatchTarget};

fn node(deps: Vec<usize>, executable: bool) -> TaskNode {
    TaskNode {
        name: Some("t".to_string()),
        command: "true".to_string(),
        environment: "default".to_string(),
        depends_on: deps,
        executable,
        description: None,
        clean_env: false,
        cwd: None,
        inputs: None,
    }
}

#[test]
fn join_resolves_relative_and_keeps_absolute() {
    assert_eq!(join_path("/w", "src/*.py"), "/w/src/*.py");
    assert_eq!(join_path("/w/", "a"), "/w/a");
    assert_eq!(join_path("/w", "/etc/x"), "/etc/x");
}

#[test]
fn working_directory_defaults_to_root() {
    assert_eq!(working_directory(&"/w".to_string(), &None, false).unwrap(), "/w");
}

#[test]
fn working_directory_inside_root_is_accepted() {
    assert_eq!(working_directory(&"/w".to_string(), &Some("sub".to_string()), true).unwrap(), "/w/sub");
}

#[test]
fn working_directory_outside_root_or_missing_is_invalid() {
    let outside = working_directory(&"/w".to_string(), &Some("/tmp".to_string()), true);
    assert_eq!(outside.unwrap_err().path, "/tmp");
    let missing = working_directory(&"/w".to_string(), &Some("sub".to_string()), false);
    assert_eq!(missing.unwrap_err().path, "/w/sub");
}

#[test]
fn watch_patterns_follow_task_inputs() {
    assert!(watch_patterns(&"/w".to_string(), &None).is_none());
    let p = watch_patterns(&"/w".to_string(), &Some(vec!["src/**/*.py".to_string()])).unwrap();
    assert_eq!(p, vec!["/w/src/**/*.py".to_string()]);
}

#[test]
fn watch_needs_a_single_executable_task() {
    let single = TaskGraph::new(vec![node(vec![], true)]).unwrap();
    assert_eq!(watch_target(&single), WatchTarget::Single(0));
    let alias = TaskGraph::new(vec![node(vec![], false)]).unwrap();
    assert_eq!(watch_target(&alias), WatchTarget::NotExecutable);
    let two = TaskGraph::new(vec![node(vec![1], true), node(vec![], true)]).unwrap();
    assert_eq!(watch_target(&two), WatchTarget::MultipleTasks);
    let none = TaskGraph::new(vec![]).unwrap();
    assert_eq!(watch_target(&none), WatchTarget::NothingToRun);
}
