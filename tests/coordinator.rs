use pixi_task_runner::coordinator::CancellationCoordinator;
use pixi_task_runner::session::{SessionAction, SessionEvent, SessionOutcome, SessionPhase, WatchSession};

#[test]
fn first_session_installs_handler_once() {
    let mut c = CancellationCoordinator::new();
    assert!(c.attach());
    assert!(!c.attach());
    assert_eq!(c.active_sessions(), 2);
}

#[test]
fn count_never_goes_negative() {
    let mut c = CancellationCoordinator::new();
    c.detach();
    assert_eq!(c.active_sessions(), 0);
    c.attach();
    c.detach();
    c.detach();
    assert_eq!(c.active_sessions(), 0);
}

#[test]
fn interrupt_reports_count_only_for_several_sessions() {
    let mut c = CancellationCoordinator::new();
    c.attach();
    assert_eq!(c.interrupt(), None);
    c.attach();
    assert_eq!(c.interrupt(), Some(2));
}

#[test]
fn cancellation_flag_stays_set() {
    let mut c = CancellationCoordinator::new();
    assert!(!c.is_cancellation_requested());
    c.attach();
    c.interrupt();
    c.detach();
    c.attach();
    assert!(c.is_cancellation_requested());
}

#[test]
fn two_sessions_end_on_one_interrupt() {
    let mut c = CancellationCoordinator::new();
    let mut a = WatchSession::new(true, vec!["/w/src".to_string()], 500);
    let mut b = WatchSession::new(true, vec!["/w/lib".to_string()], 500);
    assert!(c.attach());
    assert!(!c.attach());
    assert_eq!(c.interrupt(), Some(2));
    for s in [&mut a, &mut b] {
        assert!(c.is_cancellation_requested());
        let action = s.step(SessionEvent::Interrupted);
        assert_eq!(
            action,
            SessionAction::Finish { cancel_run: Some(0), outcome: SessionOutcome::Cancelled }
        );
        assert_eq!(s.current_phase(), SessionPhase::Terminated);
        c.detach();
    }
    assert_eq!(c.active_sessions(), 0);
}
