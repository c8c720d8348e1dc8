use crate::layout::{PROCESSES_SIZE, PROCESSES_START};
use crate::process::loader::FRAME_BYTES;
use vstd::prelude::*;

verus! {

/// Execution state of a task.
#[derive(Clone, Copy, Debug, PartialEq, Eq, Structural)]
pub enum ProcessState {
    Ready,
    Running,
    Blocked(BlockReason),
}

/// Why a blocked task is blocked.
#[derive(Clone, Copy, Debug, PartialEq, Eq, Structural)]
pub enum BlockReason {
    /// Asleep until the monotonic microsecond clock reaches the given value.
    Sleeping(u64),
    /// Reserved for a future wakeup source; the kernel never sets it.
    WaitingForWifi,
}

/// Process control block: the kernel's per-task record.
///
/// `sp` is the saved stack pointer: the address of the lowest word of the
/// task's most recently saved register block. While the task is running its
/// live stack pointer is in the CPU and the stored `sp` is stale, but it
/// always stays inside the task's stack. Addresses are kept as plain
/// integers; the machine-specific code that dereferences them lives outside
/// this crate.
#[derive(Clone, Copy, Debug, PartialEq, Eq, Structural)]
pub struct PCB {
    pub sp: usize,
    pub pid: u8,
    pub state: ProcessState,
    pub stack_base: usize,
    pub stack_size: usize,
}

impl PCB {
    /// The stack lies inside the process arena, and the saved stack pointer
    /// lies inside the stack with room for one full saved register image
    /// above it, at an 8-byte-aligned address.
    pub open spec fn wf(self) -> bool {
        &&& PROCESSES_START <= self.stack_base
        &&& self.stack_base + self.stack_size <= PROCESSES_START + PROCESSES_SIZE
        &&& self.stack_base <= self.sp
        &&& self.sp + FRAME_BYTES <= self.stack_base + self.stack_size
        &&& self.sp % 8 == 0
    }
}

} // verus!
