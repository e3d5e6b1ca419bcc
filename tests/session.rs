use pixi_task_runner::session::{
    is_qualifying_change, ChangeKind, SessionAction, SessionEvent, SessionOutcome, SessionPhase,
    WatchSession,
};

fn change(kind: ChangeKind, path: &str, at_ms: u64) -> SessionEvent {
    SessionEvent::FileChanged { kind, paths: vec![path.to_string()], at_ms }
}

fn count_restarts(session: &mut WatchSession, events: Vec<SessionEvent>) -> usize {
    let mut restarts = 0;
    for event in events {
        match session.step(event) {
            SessionAction::CancelRun { .. } => {
                if let SessionAction::StartRun { .. } = session.step(SessionEvent::GraceElapsed) {
                    restarts += 1;
                }
            }
            SessionAction::StartRun { .. } => restarts += 1,
            _ => {}
        }
    }
    restarts
}

#[test]
fn two_modifications_fifty_ms_apart_restart_once() {
    let mut s = WatchSession::new(true, vec!["/p/src".to_string()], 500);
    let events = vec![
        change(ChangeKind::Modify, "/p/src/a.py", 1000),
        change(ChangeKind::Modify, "/p/src/a.py", 1050),
    ];
    assert_eq!(count_restarts(&mut s, events), 1);
    assert_eq!(s.current_run(), 1);
}

#[test]
fn watched_file_restarts_unwatched_file_does_not() {
    // roots of `src/**/*.py`: the matching files
    let roots = vec!["/p/src/app.py".to_string(), "/p/src/util.py".to_string()];
    let mut s = WatchSession::new(true, roots, 500);
    assert_eq!(count_restarts(&mut s, vec![change(ChangeKind::Modify, "/p/src/notes.txt", 2000)]), 0);
    assert_eq!(count_restarts(&mut s, vec![change(ChangeKind::Modify, "/p/src/app.py", 2600)]), 1);
    assert_eq!(s.current_run(), 1);
}

#[test]
fn restart_cancels_then_starts_a_fresh_run() {
    let mut s = WatchSession::new(true, vec!["/p".to_string()], 500);
    assert_eq!(s.step(change(ChangeKind::Create, "/p/new.py", 700)), SessionAction::CancelRun { run: 0 });
    assert_eq!(s.current_phase(), SessionPhase::Cancelling);
    assert_eq!(s.step(SessionEvent::GraceElapsed), SessionAction::StartRun { run: 1 });
    assert_eq!(s.current_phase(), SessionPhase::Running);
}

#[test]
fn late_exit_of_superseded_run_is_ignored() {
    let mut s = WatchSession::new(true, vec!["/p".to_string()], 500);
    s.step(change(ChangeKind::Modify, "/p/a", 700));
    s.step(SessionEvent::GraceElapsed);
    assert_eq!(s.step(SessionEvent::RunExited { run: 0, code: 1 }), SessionAction::Wait);
    assert_eq!(s.current_phase(), SessionPhase::Running);
}

#[test]
fn natural_completion_with_inputs_waits_for_changes() {
    let mut s = WatchSession::new(true, vec!["/p".to_string()], 500);
    assert_eq!(s.step(SessionEvent::RunExited { run: 0, code: 3 }), SessionAction::Wait);
    assert_eq!(s.current_phase(), SessionPhase::Idle);
    assert_eq!(s.step(change(ChangeKind::Remove, "/p/x", 10)), SessionAction::StartRun { run: 1 });
}

#[test]
fn session_without_inputs_ends_with_its_run() {
    let mut s = WatchSession::new(false, vec![], 500);
    assert_eq!(
        s.step(SessionEvent::RunExited { run: 0, code: 127 }),
        SessionAction::Finish { cancel_run: None, outcome: SessionOutcome::Exited(127) }
    );
    assert_eq!(s.current_phase(), SessionPhase::Terminated);
}

#[test]
fn access_events_never_restart() {
    let mut s = WatchSession::new(true, vec!["/p".to_string()], 500);
    assert_eq!(s.step(change(ChangeKind::Access, "/p/a", 900)), SessionAction::Wait);
    assert_eq!(s.step(change(ChangeKind::Other, "/p/a", 1900)), SessionAction::Wait);
    assert!(!is_qualifying_change(ChangeKind::Access, &vec!["/p/a".to_string()], &vec!["/p".to_string()]));
    assert!(is_qualifying_change(ChangeKind::Modify, &vec!["/p/a".to_string()], &vec!["/p".to_string()]));
}

#[test]
fn watch_error_ends_a_running_session() {
    let mut s = WatchSession::new(true, vec!["/p".to_string()], 500);
    assert_eq!(
        s.step(SessionEvent::WatchFailed),
        SessionAction::Finish { cancel_run: Some(0), outcome: SessionOutcome::WatchFailed }
    );
    assert_eq!(s.step(SessionEvent::Interrupted), SessionAction::Wait);
}

#[test]
fn interrupt_while_idle_has_no_run_to_stop() {
    let mut s = WatchSession::new(true, vec!["/p".to_string()], 500);
    s.step(SessionEvent::RunExited { run: 0, code: 0 });
    assert_eq!(
        s.step(SessionEvent::Interrupted),
        SessionAction::Finish { cancel_run: None, outcome: SessionOutcome::Cancelled }
    );
}
