use vstd::prelude::*;

use crate::session::{finish_next, SessionAction, SessionOutcome, SessionPhase};

verus! {

/// Shared state bridging one interrupt to every active watch session.
pub struct CancellationCoordinator {
    active_count: usize,
    cancellation_requested: bool,
    handler_installed: bool,
}

/// The coordinator's state as plain values: active sessions, whether
/// cancellation was requested, whether the interrupt handler is installed.
pub type CoordinatorView = (nat, bool, bool);

/// An operation on the coordinator.
pub enum CoordinatorOp {
    Attach,
    Detach,
    Interrupt,
}

pub open spec fn step(s: CoordinatorView, op: CoordinatorOp) -> CoordinatorView {
    match op {
        CoordinatorOp::Attach => ((s.0 + 1) as nat, s.1, true),
        CoordinatorOp::Detach => (if s.0 > 0 {
            (s.0 - 1) as nat
        } else {
            0
        }, s.1, s.2),
        CoordinatorOp::Interrupt => (s.0, true, s.2),
    }
}

/// The state after applying `ops` in order.
pub open spec fn run_ops(s: CoordinatorView, ops: Seq<CoordinatorOp>) -> CoordinatorView
    decreases ops.len(),
{
    if ops.len() == 0 {
        s
    } else {
        step(run_ops(s, ops.drop_last()), ops.last())
    }
}

pub open spec fn count_of(ops: Seq<CoordinatorOp>, attach: bool) -> nat
    decreases ops.len(),
{
    if ops.len() == 0 {
        0
    } else {
        count_of(ops.drop_last(), attach) + (if (ops.last() is Attach && attach) || (
        ops.last() is Detach && !attach) {
            1nat
        } else {
            0nat
        })
    }
}

/// No prefix of `ops` detaches more sessions than it attached.
pub open spec fn detach_follows_attach(ops: Seq<CoordinatorOp>) -> bool {
    forall|k: int|
        0 <= k <= ops.len() ==> #[trigger] count_of(ops.take(k), false) <= count_of(
            ops.take(k),
            true,
        )
}

impl View for CancellationCoordinator {
    type V = CoordinatorView;

    closed spec fn view(&self) -> CoordinatorView {
        (self.active_count as nat, self.cancellation_requested, self.handler_installed)
    }
}

impl CancellationCoordinator {
    /// A coordinator with no session and no handler.
    pub fn new() -> (r: CancellationCoordinator)
        ensures
            r@ == (0nat, false, false),
    {
        CancellationCoordinator { active_count: 0, cancellation_requested: false, handler_installed: false }
    }

    /// Registers a starting session. Returns true for the first session ever,
    /// which installs the interrupt handler; later ones only count themselves.
    pub fn attach(&mut self) -> (install_handler: bool)
        requires
            old(self)@.0 < usize::MAX,
        ensures
            final(self)@ == step(old(self)@, CoordinatorOp::Attach),
            install_handler == !old(self)@.2,
    {
        let install = !self.handler_installed;
        self.handler_installed = true;
        self.active_count = self.active_count + 1;
        install
    }

    /// Unregisters an ending session. The count never drops below zero.
    pub fn detach(&mut self)
        ensures
            final(self)@ == step(old(self)@, CoordinatorOp::Detach),
    {
        if self.active_count > 0 {
            self.active_count = self.active_count - 1;
        }
    }

    /// Records an interrupt. Returns the number of sessions being cancelled
    /// when more than one is active, for a diagnostic.
    pub fn interrupt(&mut self) -> (r: Option<usize>)
        ensures
            final(self)@ == step(old(self)@, CoordinatorOp::Interrupt),
            old(self)@.0 > 1 ==> r is Some && r->Some_0 as nat == old(self)@.0,
            old(self)@.0 <= 1 ==> r is None,
    {
        self.cancellation_requested = true;
        if self.active_count > 1 {
            Some(self.active_count)
        } else {
            None
        }
    }

    /// Whether an interrupt was recorded. Once set, it stays set.
    pub fn is_cancellation_requested(&self) -> (r: bool)
        ensures
            r == self@.1,
    {
        self.cancellation_requested
    }

    /// The number of sessions attached and not yet detached.
    pub fn active_sessions(&self) -> (r: usize)
        ensures
            r == self@.0,
    {
        self.active_count
    }
}

/// Once requested, cancellation stays requested, whatever follows.
pub proof fn lemma_cancellation_is_monotone(s: CoordinatorView, ops: Seq<CoordinatorOp>)
    requires
        s.1,
    ensures
        run_ops(s, ops).1,
    decreases ops.len(),
{
    if ops.len() > 0 {
        lemma_cancellation_is_monotone(s, ops.drop_last());
    }
}

/// One interrupt anywhere in a sequence leaves cancellation requested at its
/// end, so every session that polls afterwards observes it.
pub proof fn lemma_one_interrupt_reaches_all(s: CoordinatorView, ops: Seq<CoordinatorOp>, k: int)
    requires
        0 <= k < ops.len(),
        ops[k] is Interrupt,
    ensures
        run_ops(s, ops).1,
    decreases ops.len(),
{
    if k == ops.len() - 1 {
    } else {
        assert(ops.drop_last()[k] == ops[k]);
        lemma_one_interrupt_reaches_all(s, ops.drop_last(), k);
    }
}

/// From an empty coordinator, when no prefix detaches more than it attached,
/// the active count is exactly the attaches minus the detaches.
pub proof fn lemma_active_count_balance(ops: Seq<CoordinatorOp>)
    requires
        detach_follows_attach(ops),
    ensures
        run_ops((0nat, false, false), ops).0 + count_of(ops, false) == count_of(ops, true),
    decreases ops.len(),
{
    if ops.len() > 0 {
        let init = ops.drop_last();
        assert forall|k: int| 0 <= k <= init.len() implies #[trigger] count_of(init.take(k), false)
            <= count_of(init.take(k), true) by {
            assert(init.take(k) =~= ops.take(k));
            assert(count_of(ops.take(k), false) <= count_of(ops.take(k), true));
        }
        lemma_active_count_balance(init);
        assert(ops.take(ops.len() as int) =~= ops);
        assert(count_of(ops.take(ops.len() as int), false) <= count_of(
            ops.take(ops.len() as int),
            true,
        ));
    }
}

/// One interrupt ends every active session: with two sessions attached, an
/// interrupt sets the flag that both of them poll, each session that observes
/// it ends with `Cancelled` and stops its run, and after both detach the count
/// is back where it was.
pub proof fn lemma_one_interrupt_ends_two_sessions(
    s: CoordinatorView,
    phase1: SessionPhase,
    run1: u64,
    last1: Option<u64>,
    phase2: SessionPhase,
    run2: u64,
    last2: Option<u64>,
)
    requires
        phase1 != SessionPhase::Terminated,
        phase2 != SessionPhase::Terminated,
    ensures
        run_ops(s, seq![CoordinatorOp::Attach, CoordinatorOp::Attach, CoordinatorOp::Interrupt]).1,
        run_ops(s, seq![CoordinatorOp::Attach, CoordinatorOp::Attach, CoordinatorOp::Interrupt]).0 == s.0 + 2,
        run_ops(
            s,
            seq![
                CoordinatorOp::Attach,
                CoordinatorOp::Attach,
                CoordinatorOp::Interrupt,
                CoordinatorOp::Detach,
                CoordinatorOp::Detach,
            ],
        ).0 == s.0,
        finish_next(phase1, run1, last1, SessionOutcome::Cancelled).0 == SessionPhase::Terminated,
        finish_next(phase1, run1, last1, SessionOutcome::Cancelled).3 matches SessionAction::Finish {
            outcome: SessionOutcome::Cancelled,
            ..
        },
        finish_next(phase2, run2, last2, SessionOutcome::Cancelled).0 == SessionPhase::Terminated,
        finish_next(phase2, run2, last2, SessionOutcome::Cancelled).3 matches SessionAction::Finish {
            outcome: SessionOutcome::Cancelled,
            ..
        },
{
    let ops = seq![
        CoordinatorOp::Attach,
        CoordinatorOp::Attach,
        CoordinatorOp::Interrupt,
        CoordinatorOp::Detach,
        CoordinatorOp::Detach,
    ];
    let three = seq![CoordinatorOp::Attach, CoordinatorOp::Attach, CoordinatorOp::Interrupt];
    assert(three.drop_last().drop_last().drop_last() =~= Seq::<CoordinatorOp>::empty());
    assert(three.drop_last().drop_last() =~= seq![CoordinatorOp::Attach]);
    assert(three.drop_last() =~= seq![CoordinatorOp::Attach, CoordinatorOp::Attach]);
    assert(ops.drop_last().drop_last() =~= three);
    assert(ops.drop_last() =~= three.push(CoordinatorOp::Detach));
    let s1 = run_ops(s, seq![CoordinatorOp::Attach]);
    assert(run_ops(s, Seq::<CoordinatorOp>::empty()) == s);
    assert(s1 == step(s, CoordinatorOp::Attach));
    let s2 = run_ops(s, seq![CoordinatorOp::Attach, CoordinatorOp::Attach]);
    assert(s2 == step(s1, CoordinatorOp::Attach));
    let s3 = run_ops(s, three);
    assert(s3 == step(s2, CoordinatorOp::Interrupt));
    let s4 = run_ops(s, three.push(CoordinatorOp::Detach));
    assert(s4 == step(s3, CoordinatorOp::Detach));
    assert(run_ops(s, ops) == step(s4, CoordinatorOp::Detach));
}

} // verus!
