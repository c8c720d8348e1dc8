use vstd::prelude::*;

verus! {

/// Lowest address of the region reserved for kernel data (the main stack
/// used by the exception handlers once the first task has been launched).
/// It opens the RAM bank that the kernel partitions.
pub const KERNEL_DATA_START: usize = 0x2000_0000;

/// Size in bytes of the kernel-data region.
pub const KERNEL_DATA_SIZE: usize = 0x8000;

/// Lowest address of the arena from which task stacks are carved.
pub const PROCESSES_START: usize = 0x2000_8000;

/// Size in bytes of the process-stack arena.
pub const PROCESSES_SIZE: usize = 0x0002_0000;

/// Number of 32-bit words in the process-stack arena.
pub const PROCESSES_WORDS: usize = PROCESSES_SIZE / 4;

/// Lowest address of the remaining RAM, reserved for the platform.
pub const RESERVED_START: usize = 0x2002_8000;

/// Size in bytes of the reserved region.
pub const RESERVED_SIZE: usize = 0x0001_A000;

/// A contiguous block of RAM: its lowest address and its size in bytes.
#[derive(Clone, Copy, Debug, PartialEq, Eq, Structural)]
pub struct Region {
    pub start: usize,
    pub size: usize,
}

impl Region {
    /// One past the highest address of the region.
    pub open spec fn end(self) -> int {
        self.start + self.size
    }
}

/// The static partition of RAM into kernel data, the process-stack arena,
/// and the remainder reserved for the platform.
#[derive(Clone, Copy, Debug, PartialEq, Eq, Structural)]
pub struct MemoryLayout {
    pub kernel_data: Region,
    pub processes: Region,
    pub reserved: Region,
}

impl MemoryLayout {
    /// The one layout this kernel is built for, as a mathematical value.
    pub open spec fn spec_layout() -> MemoryLayout {
        MemoryLayout {
            kernel_data: Region { start: KERNEL_DATA_START, size: KERNEL_DATA_SIZE },
            processes: Region { start: PROCESSES_START, size: PROCESSES_SIZE },
            reserved: Region { start: RESERVED_START, size: RESERVED_SIZE },
        }
    }

    /// Returns the constant description of the three RAM regions.
    /// The regions tile RAM back to back, so they cannot overlap.
    pub fn new() -> (layout: MemoryLayout)
        ensures
            layout == MemoryLayout::spec_layout(),
            layout.kernel_data.end() == layout.processes.start,
            layout.processes.end() == layout.reserved.start,
    {
        MemoryLayout {
            kernel_data: Region { start: KERNEL_DATA_START, size: KERNEL_DATA_SIZE },
            processes: Region { start: PROCESSES_START, size: PROCESSES_SIZE },
            reserved: Region { start: RESERVED_START, size: RESERVED_SIZE },
        }
    }
}

} // verus!
