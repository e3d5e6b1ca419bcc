use vstd::prelude::*;

use crate::graph::{deps_of, is_topological_order, TaskGraph};

verus! {

/// The exit code of a shell that could not find the command.
pub const COMMAND_NOT_FOUND: i32 = 127;

/// What happened since the last step of a run.
#[derive(Debug, PartialEq, Eq, Structural, Clone, Copy)]
pub enum RunEvent {
    /// The previous action was carried out; go on.
    Proceed,
    /// The cache was consulted for the current task.
    CacheChecked { skip: bool },
    /// The current task's command exited with `code`.
    Exited { code: i32 },
    /// The current task could not be run at all (a malformed script, an
    /// invalid working directory, an unsupported platform).
    Failed,
}

/// What the driver must do next. `task` is a node index of the graph.
#[derive(Debug, PartialEq, Eq, Structural, Clone, Copy)]
pub enum RunAction {
    /// Dry run: show the task's command without running it.
    Print { task: usize },
    /// Consult the cache for the task, then report `CacheChecked`.
    CheckCache { task: usize },
    /// The cache says the task can be skipped.
    Skipped { task: usize },
    /// Run the task's command, then report `Exited` or `Failed`.
    Execute { task: usize },
    /// The task succeeded: persist its new fingerprint.
    SaveCache { task: usize },
    /// Every task is done.
    Done,
    /// A task failed: end the process with `code`, listing the available
    /// tasks first when `list_tasks` is set.
    ExitProcess { code: i32, list_tasks: bool },
    /// A fatal error stops the sequence.
    Abort,
    /// The event does not fit the current phase; nothing changes.
    Ignore,
}

/// Where a run stands.
#[derive(Debug, PartialEq, Eq, Structural, Clone, Copy)]
pub enum RunPhase {
    /// Ready to pick the next task at the current position.
    Ready,
    /// Waiting for the cache decision on the current task.
    AwaitCache,
    /// Waiting for the current task's command to exit.
    AwaitExit,
    /// Nothing more will run.
    Stopped,
}

/// Runs the tasks of a graph once, strictly one after the other, in
/// topological order.
pub struct RunLoop {
    order: Vec<usize>,
    executable: Vec<bool>,
    dry_run: bool,
    pos: usize,
    phase: RunPhase,
}

/// The first position at or after `k` that holds an executable task.
pub open spec fn next_executable(executable: Seq<bool>, k: int) -> int
    decreases executable.len() - k,
{
    if k >= executable.len() {
        executable.len() as int
    } else if executable[k] {
        k
    } else {
        next_executable(executable, k + 1)
    }
}

proof fn lemma_next_executable_bounds(executable: Seq<bool>, k: int)
    requires
        0 <= k <= executable.len(),
    ensures
        k <= next_executable(executable, k) <= executable.len(),
        next_executable(executable, k) < executable.len() ==> executable[next_executable(
            executable,
            k,
        )],
    decreases executable.len() - k,
{
    if k < executable.len() && !executable[k] {
        lemma_next_executable_bounds(executable, k + 1);
    }
}

impl RunLoop {
    pub closed spec fn spec_order(&self) -> Seq<usize> {
        self.order@
    }

    pub closed spec fn spec_executable(&self) -> Seq<bool> {
        self.executable@
    }

    pub closed spec fn spec_dry_run(&self) -> bool {
        self.dry_run
    }

    /// The position in the order of the current task.
    pub closed spec fn pos(&self) -> int {
        self.pos as int
    }

    pub closed spec fn phase(&self) -> RunPhase {
        self.phase
    }

    /// The task at the current position.
    pub open spec fn current(&self) -> usize {
        self.spec_order()[self.pos()]
    }

    pub open spec fn wf(&self) -> bool {
        &&& self.spec_order().len() == self.spec_executable().len()
        &&& 0 <= self.pos() <= self.spec_order().len()
        &&& (self.phase() == RunPhase::AwaitCache || self.phase() == RunPhase::AwaitExit) ==> {
            &&& self.pos() < self.spec_order().len()
            &&& !self.spec_dry_run()
        }
    }

    /// A run over the graph's topological order. Alias tasks are passed over.
    pub fn new(graph: &TaskGraph, dry_run: bool) -> (r: RunLoop)
        requires
            graph.wf(),
        ensures
            r.wf(),
            r.spec_order() == graph.spec_order(),
            is_topological_order(r.spec_order(), deps_of(graph.spec_nodes())),
            forall|k: int|
                0 <= k < r.spec_order().len() ==> r.spec_executable()[k] == graph.spec_nodes()[r.spec_order()[k] as int].executable,
            r.spec_dry_run() == dry_run,
            r.pos() == 0,
            r.phase() == RunPhase::Ready,
    {
        let order = graph.topological_order();
        let mut executable: Vec<bool> = Vec::new();
        let mut k: usize = 0;
        while k < order.len()
            invariant
                graph.wf(),
                order@ == graph.spec_order(),
                is_topological_order(order@, deps_of(graph.spec_nodes())),
                k <= order@.len(),
                executable@.len() == k,
                forall|j: int|
                    0 <= j < k ==> executable@[j] == graph.spec_nodes()[order@[j] as int].executable,
            decreases order@.len() - k,
        {
            executable.push(graph.node(order[k]).executable);
            k = k + 1;
        }
        RunLoop { order, executable, dry_run, pos: 0, phase: RunPhase::Ready }
    }

    /// Where the run stands.
    pub fn current_phase(&self) -> (r: RunPhase)
        ensures
            r == self.phase(),
    {
        self.phase
    }

    /// Decides what to do on `event`.
    pub fn step(&mut self, event: RunEvent) -> (r: RunAction)
        requires
            old(self).wf(),
        ensures
            final(self).wf(),
            final(self).spec_order() == old(self).spec_order(),
            final(self).spec_executable() == old(self).spec_executable(),
            final(self).spec_dry_run() == old(self).spec_dry_run(),
            old(self).spec_dry_run() ==> final(self).phase() == RunPhase::Ready || final(self).phase()
                == RunPhase::Stopped,
            old(self).spec_dry_run() ==> !(r is Execute) && !(r is SaveCache) && !(r is CheckCache),
            match (old(self).phase(), event) {
                (RunPhase::Ready, RunEvent::Proceed) => {
                    let k = next_executable(old(self).spec_executable(), old(self).pos());
                    if k >= old(self).spec_order().len() {
                        &&& r == RunAction::Done
                        &&& final(self).phase() == RunPhase::Stopped
                    } else if old(self).spec_dry_run() {
                        &&& r == RunAction::Print { task: old(self).spec_order()[k] }
                        &&& final(self).phase() == RunPhase::Ready
                        &&& final(self).pos() == k + 1
                    } else {
                        &&& r == RunAction::CheckCache { task: old(self).spec_order()[k] }
                        &&& final(self).phase() == RunPhase::AwaitCache
                        &&& final(self).pos() == k
                    }
                },
                (RunPhase::AwaitCache, RunEvent::CacheChecked { skip }) => if skip {
                    &&& r == RunAction::Skipped { task: old(self).current() }
                    &&& final(self).phase() == RunPhase::Ready
                    &&& final(self).pos() == old(self).pos() + 1
                } else {
                    &&& r == RunAction::Execute { task: old(self).current() }
                    &&& final(self).phase() == RunPhase::AwaitExit
                    &&& final(self).pos() == old(self).pos()
                },
                (RunPhase::AwaitExit, RunEvent::Exited { code }) => if code == 0 {
                    &&& r == RunAction::SaveCache { task: old(self).current() }
                    &&& final(self).phase() == RunPhase::Ready
                    &&& final(self).pos() == old(self).pos() + 1
                } else {
                    &&& r == RunAction::ExitProcess { code, list_tasks: code == COMMAND_NOT_FOUND }
                    &&& final(self).phase() == RunPhase::Stopped
                },
                (RunPhase::AwaitExit, RunEvent::Failed) | (RunPhase::AwaitCache, RunEvent::Failed) => {
                    &&& r == RunAction::Abort
                    &&& final(self).phase() == RunPhase::Stopped
                },
                _ => {
                    &&& r == RunAction::Ignore
                    &&& final(self).phase() == old(self).phase()
                    &&& final(self).pos() == old(self).pos()
                },
            },
    {
        let n = self.order.len();
        assert(self.phase == RunPhase::AwaitCache || self.phase == RunPhase::AwaitExit ==> self.pos
            < n);
        match (self.phase, event) {
            (RunPhase::Ready, RunEvent::Proceed) => {
                proof {
                    lemma_next_executable_bounds(self.executable@, self.pos as int);
                }
                let mut k = self.pos;
                while k < self.executable.len() && !self.executable[k]
                    invariant
                        self.pos <= k <= self.executable@.len(),
                        next_executable(self.executable@, self.pos as int) == next_executable(
                            self.executable@,
                            k as int,
                        ),
                    decreases self.executable@.len() - k,
                {
                    k = k + 1;
                }
                if k >= self.order.len() {
                    self.pos = k;
                    self.phase = RunPhase::Stopped;
                    RunAction::Done
                } else if self.dry_run {
                    self.pos = k + 1;
                    RunAction::Print { task: self.order[k] }
                } else {
                    self.pos = k;
                    self.phase = RunPhase::AwaitCache;
                    RunAction::CheckCache { task: self.order[k] }
                }
            },
            (RunPhase::AwaitCache, RunEvent::CacheChecked { skip }) => {
                let task = self.order[self.pos];
                if skip {
                    self.pos = self.pos + 1;
                    self.phase = RunPhase::Ready;
                    RunAction::Skipped { task }
                } else {
                    self.phase = RunPhase::AwaitExit;
                    RunAction::Execute { task }
                }
            },
            (RunPhase::AwaitExit, RunEvent::Exited { code }) => {
                if code == 0 {
                    let task = self.order[self.pos];
                    self.pos = self.pos + 1;
                    self.phase = RunPhase::Ready;
                    RunAction::SaveCache { task }
                } else {
                    self.phase = RunPhase::Stopped;
                    RunAction::ExitProcess { code, list_tasks: code == COMMAND_NOT_FOUND }
                }
            },
            (RunPhase::AwaitExit, RunEvent::Failed) | (RunPhase::AwaitCache, RunEvent::Failed) => {
                self.phase = RunPhase::Stopped;
                RunAction::Abort
            },
            _ => RunAction::Ignore,
        }
    }
}

} // verus!
