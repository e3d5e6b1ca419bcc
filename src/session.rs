use vstd::prelude::*;

use crate::debounce::{passes, Debouncer};
use crate::paths::{is_under, path_is_under, views};

verus! {

/// The kind of a file-system change notification.
#[derive(Debug, PartialEq, Eq, Structural, Clone, Copy)]
pub enum ChangeKind {
    Create,
    Modify,
    Remove,
    Access,
    Other,
}

/// Where a watch session stands.
#[derive(Debug, PartialEq, Eq, Structural, Clone, Copy)]
pub enum SessionPhase {
    /// A run is in flight.
    Running,
    /// The in-flight run was asked to stop; a fresh run follows the grace period.
    Cancelling,
    /// The last run completed; the session waits for a change.
    Idle,
    /// The session is over.
    Terminated,
}

/// How a session ended.
#[derive(Debug, PartialEq, Eq, Structural, Clone, Copy)]
pub enum SessionOutcome {
    /// An external interrupt ended the session.
    Cancelled,
    /// The single run of a session without inputs exited with this code.
    Exited(i32),
    /// The change stream failed.
    WatchFailed,
}

/// What happened since the last step.
pub enum SessionEvent {
    /// Run number `run` exited with `code`.
    RunExited { run: u64, code: i32 },
    /// A change of `kind` touching `paths`, observed at `at_ms`.
    FileChanged { kind: ChangeKind, paths: Vec<String>, at_ms: u64 },
    /// An external cancellation was observed.
    Interrupted,
    /// The grace period after a stop request is over.
    GraceElapsed,
    /// The change stream reported an error.
    WatchFailed,
}

/// What the driver must do next.
#[derive(Debug, PartialEq, Eq, Structural, Clone, Copy)]
pub enum SessionAction {
    /// Nothing; wait for the next event.
    Wait,
    /// Trigger the stop handle of run `run`, then report `GraceElapsed` after the grace period.
    CancelRun { run: u64 },
    /// Start run number `run` with a fresh stop handle, bypassing the cache.
    StartRun { run: u64 },
    /// Stop run `cancel_run` if given, and end the session with `outcome`.
    Finish { cancel_run: Option<u64>, outcome: SessionOutcome },
}

/// One task run repeatedly while its inputs change.
pub struct WatchSession {
    phase: SessionPhase,
    run: u64,
    has_inputs: bool,
    roots: Vec<String>,
    debouncer: Debouncer,
}

/// A change restarts the task when it creates, modifies or removes something
/// under one of the watched roots. Access and metadata events never do.
pub open spec fn qualifies(kind: ChangeKind, paths: Seq<Seq<char>>, roots: Seq<Seq<char>>) -> bool {
    &&& (kind is Create || kind is Modify || kind is Remove)
    &&& exists|i: int, j: int|
        0 <= i < paths.len() && 0 <= j < roots.len() && is_under(paths[i], roots[j])
}

/// The end of a session on `outcome`, stopping the run in flight if any.
pub open spec fn finish_next(phase: SessionPhase, run: u64, last: Option<u64>, outcome: SessionOutcome) -> (
    SessionPhase,
    u64,
    Option<u64>,
    SessionAction,
) {
    if phase == SessionPhase::Terminated {
        (phase, run, last, SessionAction::Wait)
    } else {
        (
            SessionPhase::Terminated,
            run,
            last,
            SessionAction::Finish {
                cancel_run: if phase == SessionPhase::Idle {
                    None
                } else {
                    Some(run)
                },
                outcome,
            },
        )
    }
}

/// One step of a session: from its phase, run number and last accepted
/// trigger, given whether it has inputs, its roots and its debounce window, the
/// next phase, run number and last trigger, and the action to take.
pub open spec fn session_next(
    phase: SessionPhase,
    run: u64,
    last: Option<u64>,
    has_inputs: bool,
    roots: Seq<Seq<char>>,
    window: u64,
    event: SessionEvent,
) -> (SessionPhase, u64, Option<u64>, SessionAction) {
    match event {
        SessionEvent::RunExited { run: exited, code } => if phase == SessionPhase::Running && exited == run {
            if has_inputs {
                (SessionPhase::Idle, run, last, SessionAction::Wait)
            } else {
                (
                    SessionPhase::Terminated,
                    run,
                    last,
                    SessionAction::Finish { cancel_run: None, outcome: SessionOutcome::Exited(code) },
                )
            }
        } else {
            (phase, run, last, SessionAction::Wait)
        },
        SessionEvent::FileChanged { kind, paths, at_ms } => if has_inputs && (phase
            == SessionPhase::Running || (phase == SessionPhase::Idle && run < u64::MAX)) && qualifies(
            kind,
            views(paths@),
            roots,
        ) && passes(last, window, at_ms) {
            if phase == SessionPhase::Running {
                (SessionPhase::Cancelling, run, Some(at_ms), SessionAction::CancelRun { run })
            } else {
                (
                    SessionPhase::Running,
                    (run + 1) as u64,
                    Some(at_ms),
                    SessionAction::StartRun { run: (run + 1) as u64 },
                )
            }
        } else {
            (phase, run, last, SessionAction::Wait)
        },
        SessionEvent::GraceElapsed => if phase == SessionPhase::Cancelling {
            if run < u64::MAX {
                (
                    SessionPhase::Running,
                    (run + 1) as u64,
                    last,
                    SessionAction::StartRun { run: (run + 1) as u64 },
                )
            } else {
                (SessionPhase::Idle, run, last, SessionAction::Wait)
            }
        } else {
            (phase, run, last, SessionAction::Wait)
        },
        SessionEvent::Interrupted => finish_next(phase, run, last, SessionOutcome::Cancelled),
        SessionEvent::WatchFailed => finish_next(phase, run, last, SessionOutcome::WatchFailed),
    }
}

fn touches_roots(paths: &Vec<String>, roots: &Vec<String>) -> (r: bool)
    ensures
        r == exists|i: int, j: int|
            0 <= i < paths@.len() && 0 <= j < roots@.len() && is_under(
                views(paths@)[i],
                views(roots@)[j],
            ),
{
    let mut i: usize = 0;
    while i < paths.len()
        invariant
            i <= paths@.len(),
            forall|a: int, b: int|
                0 <= a < i && 0 <= b < roots@.len() ==> !is_under(paths@[a]@, roots@[b]@),
        decreases paths@.len() - i,
    {
        let mut j: usize = 0;
        while j < roots.len()
            invariant
                i < paths@.len(),
                j <= roots@.len(),
                forall|a: int, b: int|
                    0 <= a < i && 0 <= b < roots@.len() ==> !is_under(paths@[a]@, roots@[b]@),
                forall|b: int| 0 <= b < j ==> !is_under(paths@[i as int]@, roots@[b]@),
            decreases roots@.len() - j,
        {
            if path_is_under(paths[i].as_str(), roots[j].as_str()) {
                assert(views(paths@)[i as int] == paths@[i as int]@);
                assert(views(roots@)[j as int] == roots@[j as int]@);
                return true;
            }
            j = j + 1;
        }
        i = i + 1;
    }
    proof {
        assert forall|a: int, b: int|
            0 <= a < paths@.len() && 0 <= b < roots@.len() implies !is_under(
            views(paths@)[a],
            views(roots@)[b],
        ) by {
            assert(views(paths@)[a] == paths@[a]@);
            assert(views(roots@)[b] == roots@[b]@);
        }
    }
    false
}

/// Whether a change notification restarts a session watching `roots`.
pub fn is_qualifying_change(kind: ChangeKind, paths: &Vec<String>, roots: &Vec<String>) -> (r: bool)
    ensures
        r == qualifies(kind, views(paths@), views(roots@)),
{
    match kind {
        ChangeKind::Create | ChangeKind::Modify | ChangeKind::Remove => touches_roots(paths, roots),
        _ => false,
    }
}

/// A burst of qualifying changes within one debounce window restarts the
/// session once: the first change restarts the task (mid-run, by cancelling it
/// for a fresh run), and a second change inside the window is discarded,
/// whether or not the grace period ended in between.
pub proof fn lemma_burst_restarts_once(
    phase: SessionPhase,
    run: u64,
    last: Option<u64>,
    roots: Seq<Seq<char>>,
    window: u64,
    first: SessionEvent,
    second: SessionEvent,
)
    requires
        phase == SessionPhase::Running || (phase == SessionPhase::Idle && run < u64::MAX),
        first matches SessionEvent::FileChanged { kind, paths, at_ms } && qualifies(kind, views(paths@), roots)
            && passes(last, window, at_ms),
        second matches SessionEvent::FileChanged { at_ms: later, .. } && first->at_ms <= later
            < first->at_ms + window,
    ensures
        ({
            let (p1, r1, l1, a1) = session_next(phase, run, last, true, roots, window, first);
            let (p2, r2, l2, a2) = session_next(p1, r1, l1, true, roots, window, second);
            let (pg, rg, lg, ag) = session_next(p1, r1, l1, true, roots, window, SessionEvent::GraceElapsed);
            let (p3, r3, l3, a3) = session_next(pg, rg, lg, true, roots, window, second);
            &&& a1 == (if phase == SessionPhase::Running {
                SessionAction::CancelRun { run }
            } else {
                SessionAction::StartRun { run: (run + 1) as u64 }
            })
            &&& a2 == SessionAction::Wait
            &&& r2 == r1
            &&& phase == SessionPhase::Running ==> ag == SessionAction::StartRun { run: (run + 1) as u64 }
                || run == u64::MAX
            &&& a3 == SessionAction::Wait
        }),
{
}

impl WatchSession {
    pub closed spec fn phase(&self) -> SessionPhase {
        self.phase
    }

    /// The number of the authoritative run.
    pub closed spec fn run(&self) -> u64 {
        self.run
    }

    pub closed spec fn spec_has_inputs(&self) -> bool {
        self.has_inputs
    }

    pub closed spec fn spec_roots(&self) -> Seq<Seq<char>> {
        views(self.roots@)
    }

    pub closed spec fn last_trigger(&self) -> Option<u64> {
        self.debouncer.spec_last()
    }

    pub closed spec fn window(&self) -> u64 {
        self.debouncer.spec_window()
    }

    /// A session whose first run, number zero, has just been started. `has_inputs`
    /// tells whether the task declares inputs; `roots` are the paths watched for them.
    pub fn new(has_inputs: bool, roots: Vec<String>, debounce_ms: u64) -> (r: WatchSession)
        ensures
            r.phase() == SessionPhase::Running,
            r.run() == 0,
            r.spec_has_inputs() == has_inputs,
            r.spec_roots() == views(roots@),
            r.last_trigger() is None,
            r.window() == debounce_ms,
    {
        WatchSession {
            phase: SessionPhase::Running,
            run: 0,
            has_inputs,
            roots,
            debouncer: Debouncer::new(debounce_ms),
        }
    }

    /// Where the session stands.
    pub fn current_phase(&self) -> (r: SessionPhase)
        ensures
            r == self.phase(),
    {
        self.phase
    }

    /// The number of the authoritative run.
    pub fn current_run(&self) -> (r: u64)
        ensures
            r == self.run(),
    {
        self.run
    }

    /// Decides what to do on `event`.
    pub fn step(&mut self, event: SessionEvent) -> (r: SessionAction)
        ensures
            final(self).spec_has_inputs() == old(self).spec_has_inputs(),
            final(self).spec_roots() == old(self).spec_roots(),
            final(self).window() == old(self).window(),
            (final(self).phase(), final(self).run(), final(self).last_trigger(), r) == session_next(
                old(self).phase(),
                old(self).run(),
                old(self).last_trigger(),
                old(self).spec_has_inputs(),
                old(self).spec_roots(),
                old(self).window(),
                event,
            ),
    {
        match event {
            SessionEvent::RunExited { run, code } => {
                if self.phase == SessionPhase::Running && run == self.run {
                    if self.has_inputs {
                        self.phase = SessionPhase::Idle;
                        SessionAction::Wait
                    } else {
                        self.phase = SessionPhase::Terminated;
                        SessionAction::Finish { cancel_run: None, outcome: SessionOutcome::Exited(code) }
                    }
                } else {
                    SessionAction::Wait
                }
            },
            SessionEvent::FileChanged { kind, paths, at_ms } => {
                let can_restart = self.phase == SessionPhase::Running || (self.phase
                    == SessionPhase::Idle && self.run < u64::MAX);
                if !self.has_inputs || !can_restart || !is_qualifying_change(kind, &paths, &self.roots) {
                    return SessionAction::Wait;
                }
                if !self.debouncer.offer(at_ms) {
                    return SessionAction::Wait;
                }
                if self.phase == SessionPhase::Running {
                    self.phase = SessionPhase::Cancelling;
                    SessionAction::CancelRun { run: self.run }
                } else {
                    self.phase = SessionPhase::Running;
                    self.run = self.run + 1;
                    SessionAction::StartRun { run: self.run }
                }
            },
            SessionEvent::GraceElapsed => {
                if self.phase != SessionPhase::Cancelling {
                    SessionAction::Wait
                } else if self.run < u64::MAX {
                    self.phase = SessionPhase::Running;
                    self.run = self.run + 1;
                    SessionAction::StartRun { run: self.run }
                } else {
                    self.phase = SessionPhase::Idle;
                    SessionAction::Wait
                }
            },
            SessionEvent::Interrupted => self.finish(SessionOutcome::Cancelled),
            SessionEvent::WatchFailed => self.finish(SessionOutcome::WatchFailed),
        }
    }

    fn finish(&mut self, outcome: SessionOutcome) -> (r: SessionAction)
        ensures
            final(self).has_inputs == old(self).has_inputs,
            final(self).roots == old(self).roots,
            final(self).debouncer == old(self).debouncer,
            final(self).run == old(self).run,
            if old(self).phase == SessionPhase::Terminated {
                final(self).phase == old(self).phase && r == SessionAction::Wait
            } else {
                &&& final(self).phase == SessionPhase::Terminated
                &&& r == (SessionAction::Finish {
                    cancel_run: if old(self).phase == SessionPhase::Idle {
                        None
                    } else {
                        Some(old(self).run)
                    },
                    outcome,
                })
            },
    {
        if self.phase == SessionPhase::Terminated {
            return SessionAction::Wait;
        }
        let cancel_run = if self.phase == SessionPhase::Idle {
            None
        } else {
            Some(self.run)
        };
        self.phase = SessionPhase::Terminated;
        SessionAction::Finish { cancel_run, outcome }
    }
}

} // verus!
