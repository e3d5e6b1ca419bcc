use pixi_task_runner::graph::{GraphError, TaskGraph, TaskNode};

fn node(name: &str, deps: Vec<usize>) -> TaskNode {
    TaskNode {
        name: Some(name.to_string()),
        command: format!("echo {}", name),
        environment: "default".to_string(),
        depends_on: deps,
        executable: true,
        description: None,
        clean_env: false,
        cwd: None,
        inputs: None,
    }
}

fn position(order: &[usize], id: usize) -> usize {
    order.iter().position(|x| *x == id).unwrap()
}

#[test]
fn chain_runs_dependencies_first() {
    // build depends on fetch
    let g = TaskGraph::new(vec![node("build", vec![1]), node("fetch", vec![])]).unwrap();
    assert_eq!(g.topological_order(), vec![1, 0]);
}

#[test]
fn diamond_order_respects_every_edge() {
    let g = TaskGraph::new(vec![
        node("all", vec![1, 2]),
        node("left", vec![3]),
        node("right", vec![3]),
        node("base", vec![]),
    ])
    .unwrap();
    let order = g.topological_order();
    assert_eq!(order.len(), 4);
    let mut sorted = order.clone();
    sorted.sort();
    assert_eq!(sorted, vec![0, 1, 2, 3]);
    for (task, deps) in [(0usize, vec![1usize, 2]), (1, vec![3]), (2, vec![3])] {
        for d in deps {
            assert!(position(&order, d) < position(&order, task));
        }
    }
}

#[test]
fn order_ties_follow_insertion_order() {
    let g = TaskGraph::new(vec![node("a", vec![]), node("b", vec![]), node("c", vec![])]).unwrap();
    assert_eq!(g.topological_order(), vec![0, 1, 2]);
}

#[test]
fn order_is_stable_across_calls() {
    let g = TaskGraph::new(vec![node("x", vec![2]), node("y", vec![0]), node("z", vec![])]).unwrap();
    let first = g.topological_order();
    assert_eq!(first, vec![2, 0, 1]);
    assert_eq!(g.topological_order(), first);
}

#[test]
fn cycle_is_rejected() {
    let r = TaskGraph::new(vec![node("a", vec![1]), node("b", vec![2]), node("c", vec![0])]);
    assert!(matches!(r, Err(GraphError::Cycle)));
}

#[test]
fn self_dependency_is_a_cycle() {
    let r = TaskGraph::new(vec![node("a", vec![0])]);
    assert!(matches!(r, Err(GraphError::Cycle)));
}

#[test]
fn unresolved_dependency_is_rejected() {
    let r = TaskGraph::new(vec![node("a", vec![]), node("b", vec![7])]);
    assert!(matches!(r, Err(GraphError::UnresolvedDependency { task: 1, dependency: 7 })));
}

#[test]
fn empty_graph_has_empty_order() {
    let g = TaskGraph::new(vec![]).unwrap();
    assert_eq!(g.len(), 0);
    assert!(g.topological_order().is_empty());
}

#[test]
fn same_nodes_give_the_same_order_across_builds() {
    let make = || vec![node("d", vec![2, 1]), node("c", vec![]), node("b", vec![1]), node("a", vec![])];
    let first = TaskGraph::new(make()).unwrap().topological_order();
    let second = TaskGraph::new(make()).unwrap().topological_order();
    assert_eq!(first, second);
    // first pass: c (1), b (2), a (3); second pass: d (0)
    assert_eq!(first, vec![1, 2, 3, 0]);
}
