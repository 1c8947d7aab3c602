//! Process and CPU-core bookkeeping: the per-core nested
//! interrupts-disabled-section counter that the spin lock relies on, and the
//! process table's data types.

use vstd::prelude::*;
use crate::locks::SpinLock;

verus! {

/// Per-core bookkeeping for nested interrupts-disabled sections.
///
/// A core disables interrupts when it enters its outermost such section and
/// may re-enable them only when it leaves that outermost section — and only
/// if they were enabled before it entered. `noff` counts the nesting depth;
/// `intena` remembers whether interrupts were enabled before the outermost
/// entry. The decisions are made here and verified; reading and writing the
/// machine's interrupt-enable state is the platform layer's job, driven by
/// the booleans these methods take and return.
pub struct Core {
    /// Nesting depth: how many interrupts-disabled sections are open.
    pub noff: usize,
    /// Whether interrupts were enabled before the outermost section.
    pub intena: bool,
}

impl Core {
    pub fn new() -> (r: Core)
        ensures
            r.noff == 0,
            !r.intena,
    {
        Core { noff: 0, intena: false }
    }

    /// Enters an interrupts-disabled section. `interruptsEnabled` reports
    /// the machine state at the call; the result tells the platform layer
    /// whether it must disable interrupts now (exactly on the outermost
    /// entry, which also records the prior state).
    pub fn enterInterruptsDisabledSection(&mut self, interruptsEnabled: bool) -> (shouldDisable:
        bool)
        requires
            old(self).noff < usize::MAX,
        ensures
            final(self).noff == old(self).noff + 1,
            shouldDisable == (old(self).noff == 0),
            final(self).intena == if old(self).noff == 0 {
                interruptsEnabled
            } else {
                old(self).intena
            },
    {
        let outermost = self.noff == 0;
        if outermost {
            self.intena = interruptsEnabled;
        }
        self.noff = self.noff + 1;
        outermost
    }

    /// Leaves an interrupts-disabled section. The result tells the platform
    /// layer whether it must re-enable interrupts now: exactly when the
    /// outermost section ends and interrupts were enabled before it began.
    pub fn exitInterruptsDisabledSection(&mut self) -> (shouldEnable: bool)
        requires
            old(self).noff >= 1,
        ensures
            final(self).noff == old(self).noff - 1,
            final(self).intena == old(self).intena,
            shouldEnable == (old(self).noff == 1 && old(self).intena),
    {
        self.noff = self.noff - 1;
        self.noff == 0 && self.intena
    }
}

/// The lifecycle state of a process.
#[derive(PartialEq, Eq, Structural, Copy, Clone)]
pub enum ProcessState {
    /// No memory has yet been allocated for this process.
    UNUSED,
    USED,
    RUNNABLE,
    /// The process is blocked, waiting for a sleep lock or an I/O
    /// operation.
    SLEEPING,
    RUNNING,
    ZOMBIE,
    ALLOCATED,
}

/// The part of a process that the scheduler reads and writes under its
/// lock.
pub struct ProcessMetadata {
    pub state: ProcessState,
}

impl ProcessMetadata {
    pub fn new() -> (r: ProcessMetadata)
        ensures
            r.state == (ProcessState::UNUSED),
    {
        ProcessMetadata { state: ProcessState::UNUSED }
    }
}

/// The part of a process only the process itself touches.
pub struct ProcessData {}

impl ProcessData {
    pub fn new() -> (r: ProcessData) {
        ProcessData {}
    }
}

/// One process: its scheduler-visible metadata behind a spin lock, and its
/// private data.
pub struct Process {
    pub metadata: SpinLock<ProcessMetadata>,
    pub data: ProcessData,
}

impl Process {
    pub fn new() -> (r: Process)
        ensures
            !r.metadata.is_acquired(),
            r.metadata.view().state == (ProcessState::UNUSED),
    {
        Process { metadata: SpinLock::new(ProcessMetadata::new()), data: ProcessData::new() }
    }
}

/// Greatest number of processes the kernel tracks at once.
pub const MAX_ALLOWED_PROCESSES: usize = 64;

/// The process table: every process slot, and which one is the initial
/// process once it exists.
pub struct ProcessManager {
    pub processes: Vec<Process>,
    /// Index of the initial process in `processes`, once created.
    pub initProcess: Option<usize>,
}

impl ProcessManager {
    pub fn new() -> (r: ProcessManager)
        ensures
            r.processes.len() == MAX_ALLOWED_PROCESSES,
            r.initProcess is None,
            forall|i: int|
                0 <= i < MAX_ALLOWED_PROCESSES ==> (#[trigger] r.processes[i]).metadata.view().state
                    == (ProcessState::UNUSED) && !r.processes[i].metadata.is_acquired(),
    {
        let mut processes: Vec<Process> = Vec::new();
        let mut i: usize = 0;
        while i < MAX_ALLOWED_PROCESSES
            invariant
                0 <= i <= MAX_ALLOWED_PROCESSES,
                processes.len() == i,
                forall|t: int|
                    0 <= t < i ==> (#[trigger] processes[t]).metadata.view().state == (
                    ProcessState::UNUSED) && !processes[t].metadata.is_acquired(),
            decreases MAX_ALLOWED_PROCESSES - i,
        {
            processes.push(Process::new());
            i = i + 1;
        }
        ProcessManager { processes, initProcess: None }
    }
}

} // verus!
