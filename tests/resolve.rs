use pixi_task_runner::graph::GraphError;
use pixi_task_runner::resolve::{from_cmd_args, join_command, lookup, AmbiguousTask, ResolveError, TaskDefinition};

fn def(env: &str, name: &str, deps: &[&str]) -> TaskDefinition {
    TaskDefinition {
        environment: env.to_string(),
        name: name.to_string(),
        command: format!("run-{}", name),
        depends_on: deps.iter().map(|d| d.to_string()).collect(),
        executable: true,
        description: None,
        clean_env: false,
        cwd: None,
        inputs: None,
    }
}

fn words(v: &[&str]) -> Vec<String> {
    v.iter().map(|s| s.to_string()).collect()
}

fn first(_: AmbiguousTask) -> Option<usize> {
    Some(0)
}

fn decline(_: AmbiguousTask) -> Option<usize> {
    None
}

#[test]
fn lookup_finds_every_environment() {
    let catalog = vec![def("a", "build", &[]), def("b", "test", &[]), def("b", "build", &[])];
    assert_eq!(lookup(&catalog, &"build".to_string()), vec![0, 2]);
    assert!(lookup(&catalog, &"deploy".to_string()).is_empty());
}

#[test]
fn words_join_with_spaces() {
    assert_eq!(join_command(&words(&["echo", "a", "b"])), "echo a b");
    assert_eq!(join_command(&vec![]), "");
}

#[test]
fn unknown_name_becomes_ad_hoc_command() {
    let catalog = vec![def("default", "build", &[])];
    let g = from_cmd_args(&catalog, words(&["python", "x.py"]), &"default".to_string(), false, &first).unwrap();
    assert_eq!(g.len(), 1);
    let n = g.node(0);
    assert!(n.name.is_none());
    assert_eq!(n.command, "python x.py");
    assert!(n.depends_on.is_empty());
}

#[test]
fn dependencies_are_added_transitively_once() {
    let catalog = vec![
        def("default", "build", &["fetch", "gen"]),
        def("default", "fetch", &[]),
        def("default", "gen", &["fetch"]),
    ];
    let g = from_cmd_args(&catalog, words(&["build", "--release"]), &"default".to_string(), false, &first).unwrap();
    assert_eq!(g.len(), 3);
    assert_eq!(g.node(0).command, "run-build --release");
    let order = g.topological_order();
    let names: Vec<String> = order.iter().map(|i| g.node(*i).name.clone().unwrap()).collect();
    assert_eq!(names, vec!["fetch", "gen", "build"]);
}

#[test]
fn skip_deps_keeps_only_the_task() {
    let catalog = vec![def("default", "build", &["fetch"]), def("default", "fetch", &[])];
    let g = from_cmd_args(&catalog, words(&["build"]), &"default".to_string(), true, &first).unwrap();
    assert_eq!(g.len(), 1);
    assert!(g.node(0).depends_on.is_empty());
}

#[test]
fn declined_choice_fails_resolution() {
    let catalog = vec![def("py39", "test", &[]), def("py310", "test", &[])];
    let r = from_cmd_args(&catalog, words(&["test"]), &"default".to_string(), false, &decline);
    assert!(matches!(r, Err(ResolveError::AmbiguousTask { .. })));
}

#[test]
fn chooser_picks_the_environment() {
    let catalog = vec![def("py39", "test", &[]), def("py310", "test", &[])];
    let second = |p: AmbiguousTask| {
        assert_eq!(p.environments, vec!["py39".to_string(), "py310".to_string()]);
        Some(1)
    };
    let g = from_cmd_args(&catalog, words(&["test"]), &"default".to_string(), false, &second).unwrap();
    assert_eq!(g.node(0).environment, "py310");
}

#[test]
fn unknown_dependency_fails_resolution() {
    let catalog = vec![def("default", "build", &["missing"])];
    let r = from_cmd_args(&catalog, words(&["build"]), &"default".to_string(), false, &first);
    assert!(matches!(r, Err(ResolveError::UnknownDependency { .. })));
}

#[test]
fn dependency_cycle_fails_before_anything_runs() {
    let catalog = vec![def("default", "a", &["b"]), def("default", "b", &["a"])];
    let r = from_cmd_args(&catalog, words(&["a"]), &"default".to_string(), false, &first);
    assert!(matches!(r, Err(ResolveError::Graph(GraphError::Cycle))));
}

#[test]
fn empty_command_line_names_no_task() {
    let r = from_cmd_args(&vec![], vec![], &"default".to_string(), false, &first);
    assert!(matches!(r, Err(ResolveError::NoTask)));
}

#[test]
fn task_settings_are_carried_into_the_node() {
    let mut build = def("default", "build", &[]);
    build.cwd = Some("sub".to_string());
    build.clean_env = true;
    build.description = Some("compile".to_string());
    let g = from_cmd_args(&vec![build], words(&["build"]), &"default".to_string(), false, &first).unwrap();
    let n = g.node(0);
    assert_eq!(n.cwd, Some("sub".to_string()));
    assert!(n.clean_env);
    assert_eq!(n.description, Some("compile".to_string()));
    assert_eq!(n.command, "run-build");
}

#[test]
fn unknown_dependency_deep_in_the_closure_is_reported() {
    let catalog = vec![def("default", "a", &["b"]), def("default", "b", &["ghost"])];
    match from_cmd_args(&catalog, words(&["a"]), &"default".to_string(), false, &first) {
        Err(ResolveError::UnknownDependency { task_name }) => assert_eq!(task_name, "ghost"),
        _ => panic!("expected an unknown dependency"),
    }
}

#[test]
fn declined_choice_for_a_dependency_names_it() {
    let catalog = vec![def("default", "build", &["fmt"]), def("py39", "fmt", &[]), def("py310", "fmt", &[])];
    match from_cmd_args(&catalog, words(&["build"]), &"default".to_string(), false, &decline) {
        Err(ResolveError::AmbiguousTask { task_name }) => assert_eq!(task_name, "fmt"),
        _ => panic!("expected an ambiguous dependency"),
    }
}

#[test]
fn unreached_ambiguity_and_cycles_do_not_matter() {
    let catalog = vec![
        def("default", "build", &[]),
        def("py39", "other", &["loop"]),
        def("py310", "other", &[]),
        def("default", "loop", &["loop"]),
    ];
    let g = from_cmd_args(&catalog, words(&["build"]), &"default".to_string(), false, &decline).unwrap();
    assert_eq!(g.len(), 1);
}
