//! Processes, threads and the scheduler's bookkeeping.
//!
//! Scheduling policy and context switching are outside the memory core;
//! what stands here is the data the page-fault path consults: each process
//! owns one address space, and the running thread names the process whose
//! address space a fault is resolved in.  Threads name their parent process
//! by index into the process table, and the queues hold thread indices,
//! rather than sharing reference-counted cells.

use vstd::prelude::*;

use crate::cpu::InterruptContext;
use crate::vfs::FileDescription;
use crate::vmm::VirtualMemManager;

verus! {

/// Most open files one process may hold.
pub const MAX_FDS_PER_PROCESS: usize = 128;

/// Lifecycle state of a process or thread.
#[derive(Debug, Clone, Copy, PartialEq, Eq, Structural)]
pub enum Status {
    Running,
    Waiting,
    Dying,
}

/// The segment selectors execution units run under.
#[derive(Debug, Clone, Copy, PartialEq, Eq, Structural)]
pub enum SelectorValues {
    KernelCs,
    KernelDs,
    UserCs,
    UserDs,
}

impl SelectorValues {
    /// The selector's numeric value; the user selectors carry requested
    /// privilege level 3 in their low bits.
    pub fn value(self) -> (r: u64)
        ensures
            r == match self {
                SelectorValues::KernelCs => 0x8u64,
                SelectorValues::KernelDs => 0x10u64,
                SelectorValues::UserCs => 0x1bu64,
                SelectorValues::UserDs => 0x23u64,
            },
    {
        match self {
            SelectorValues::KernelCs => 0x8,
            SelectorValues::KernelDs => 0x10,
            SelectorValues::UserCs => 0x1b,
            SelectorValues::UserDs => 0x23,
        }
    }
}

/// One process: its identity, its address space, its threads (indices into
/// the thread table) and its open files.
pub struct Process {
    pub pid: usize,
    pub status: Status,
    pub name: String,
    pub pagemap: Option<VirtualMemManager>,
    pub threads: Vec<usize>,
    pub file_desc_list: Vec<Option<FileDescription>>,
    pub working_dir: Option<FileDescription>,
}

/// One thread: its identity, its parent process (an index into the process
/// table), its kernel stack and its saved registers.
pub struct Thread {
    pub tid: usize,
    pub status: Status,
    pub parent: usize,
    pub kernel_stack: u64,
    pub regs: InterruptContext,
}

/// The scheduler's two queues of thread indices.
pub struct SchedulerQueues {
    pub runnable: Vec<usize>,
    pub waiting: Vec<usize>,
}

impl SchedulerQueues {
    pub fn new() -> (r: Self)
        ensures
            r.runnable@.len() == 0,
            r.waiting@.len() == 0,
    {
        SchedulerQueues { runnable: Vec::new(), waiting: Vec::new() }
    }
}

/// The scheduler: its queues and the thread now on the processor, if any.
pub struct Scheduler {
    pub queues: SchedulerQueues,
    pub running_thread: Option<usize>,
}

impl Scheduler {
    pub fn new() -> (r: Self)
        ensures
            r.queues.runnable@.len() == 0,
            r.queues.waiting@.len() == 0,
            r.running_thread is None,
    {
        Scheduler { queues: SchedulerQueues::new(), running_thread: None }
    }
}

} // verus!
