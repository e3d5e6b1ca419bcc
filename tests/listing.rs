use pixi_task_runner::listing::available_tasks;

#[test]
fn available_tasks_are_sorted_and_unique() {
    let names = vec!["test", "build", "lint", "build", "Zeta"];
    let listed = available_tasks(names.into_iter().map(String::from).collect());
    assert_eq!(listed, vec!["Zeta", "build", "lint", "test"]);
}

#[test]
fn no_tasks_lists_nothing() {
    assert!(available_tasks(vec![]).is_empty());
}
