//! What memory management reads and writes of a process.
use vstd::prelude::*;
use crate::mm::vma::VmSpace;

verus! {

/// Whether a process still runs.
#[derive(Clone, Copy, PartialEq, Eq, Structural, Debug)]
pub enum ProcessState {
    Active,
    /// It has ended and waits to be collected.
    Zombie,
}

/// Signals of a process.
#[derive(Clone, Copy, PartialEq, Eq, Structural, Debug)]
pub struct SignalState {
    pub kill_pending: bool,
}

/// A process.
pub struct Process {
    pub pid: u64,
    pub parent_pid: u64,
    /// Root of the address space that it runs in.
    pub cr3: u64,
    pub state: ProcessState,
    /// The address space that it owns: a kernel thread has none, nor has a process that
    /// runs in the one of its parent.
    pub vm_space: Option<VmSpace>,
    pub signal_state: Option<SignalState>,
    pub exit_code: i32,
}

} // verus!
