use pixi_task_runner::graph::{TaskGraph, TaskNode};
use pixi_task_runner::run_loop::{RunAction, RunEvent, RunLoop, RunPhase, COMMAND_NOT_FOUND};

fn node(name: &str, deps: Vec<usize>, executable: bool) -> TaskNode {
    TaskNode {
        name: Some(name.to_string()),
        command: format!("./{}.sh", name),
        environment: "default".to_string(),
        depends_on: deps,
        executable,
        description: None,
        clean_env: false,
        cwd: None,
        inputs: None,
    }
}

#[test]
fn cached_dependency_is_skipped_and_exit_code_reported() {
    // build (0) depends on fetch (1); fetch is a cache hit, build is not
    let g = TaskGraph::new(vec![node("build", vec![1], true), node("fetch", vec![], true)]).unwrap();
    let mut run = RunLoop::new(&g, false);
    let mut executed = Vec::new();
    assert_eq!(run.step(RunEvent::Proceed), RunAction::CheckCache { task: 1 });
    assert_eq!(run.step(RunEvent::CacheChecked { skip: true }), RunAction::Skipped { task: 1 });
    assert_eq!(run.step(RunEvent::Proceed), RunAction::CheckCache { task: 0 });
    if let RunAction::Execute { task } = run.step(RunEvent::CacheChecked { skip: false }) {
        executed.push(task);
    }
    assert_eq!(executed, vec![0]);
    assert_eq!(
        run.step(RunEvent::Exited { code: 2 }),
        RunAction::ExitProcess { code: 2, list_tasks: false }
    );
    assert_eq!(run.current_phase(), RunPhase::Stopped);
}

#[test]
fn command_not_found_lists_available_tasks() {
    let g = TaskGraph::new(vec![node("serve", vec![], true)]).unwrap();
    let mut run = RunLoop::new(&g, false);
    run.step(RunEvent::Proceed);
    run.step(RunEvent::CacheChecked { skip: false });
    assert_eq!(
        run.step(RunEvent::Exited { code: COMMAND_NOT_FOUND }),
        RunAction::ExitProcess { code: 127, list_tasks: true }
    );
}

#[test]
fn successful_run_saves_cache_and_finishes() {
    let g = TaskGraph::new(vec![node("a", vec![], true)]).unwrap();
    let mut run = RunLoop::new(&g, false);
    run.step(RunEvent::Proceed);
    assert_eq!(run.step(RunEvent::CacheChecked { skip: false }), RunAction::Execute { task: 0 });
    assert_eq!(run.step(RunEvent::Exited { code: 0 }), RunAction::SaveCache { task: 0 });
    assert_eq!(run.step(RunEvent::Proceed), RunAction::Done);
}

#[test]
fn dry_run_only_prints() {
    let g = TaskGraph::new(vec![node("build", vec![1], true), node("fetch", vec![], true)]).unwrap();
    let mut run = RunLoop::new(&g, true);
    assert_eq!(run.step(RunEvent::Proceed), RunAction::Print { task: 1 });
    assert_eq!(run.step(RunEvent::Proceed), RunAction::Print { task: 0 });
    assert_eq!(run.step(RunEvent::Proceed), RunAction::Done);
}

#[test]
fn aliases_are_passed_over() {
    let g = TaskGraph::new(vec![node("all", vec![1], false), node("one", vec![], true)]).unwrap();
    let mut run = RunLoop::new(&g, false);
    assert_eq!(run.step(RunEvent::Proceed), RunAction::CheckCache { task: 1 });
    run.step(RunEvent::CacheChecked { skip: true });
    assert_eq!(run.step(RunEvent::Proceed), RunAction::Done);
}

#[test]
fn fatal_failure_aborts_the_sequence() {
    let g = TaskGraph::new(vec![node("a", vec![], true), node("b", vec![0], true)]).unwrap();
    let mut run = RunLoop::new(&g, false);
    run.step(RunEvent::Proceed);
    run.step(RunEvent::CacheChecked { skip: false });
    assert_eq!(run.step(RunEvent::Failed), RunAction::Abort);
    assert_eq!(run.step(RunEvent::Proceed), RunAction::Ignore);
}

#[test]
fn out_of_turn_event_is_ignored() {
    let g = TaskGraph::new(vec![node("a", vec![], true)]).unwrap();
    let mut run = RunLoop::new(&g, false);
    assert_eq!(run.step(RunEvent::Exited { code: 0 }), RunAction::Ignore);
    assert_eq!(run.current_phase(), RunPhase::Ready);
}
