//! A preemptive round-robin multitasking kernel for a single-core 32-bit
//! microcontroller, modelled and verified over plain values.
//!
//! The kernel multiplexes a fixed set of tasks onto one CPU: a bounded FIFO
//! ready queue drives round-robin time slicing, a binary min-heap keyed on
//! wake time implements timed sleep, and an initial stack frame builder makes
//! a freshly created task indistinguishable from a preempted one. Everything
//! machine-specific (exception handlers, the context-switch assembly, the
//! timer peripheral) lives outside this crate and talks to it through plain
//! values: the monotonic microsecond clock is passed in as an argument, and
//! the scheduler hands back the stack pointer to install.

pub mod layout;
pub mod process;
pub mod scheduler;

pub use layout::MemoryLayout;
pub use layout::Region;
pub use process::loader::setup_initial_stack;
pub use process::loader::ProcessError;
pub use process::pcb::BlockReason;
pub use process::pcb::ProcessState;
pub use process::pcb::PCB;
pub use scheduler::round_robin::RR;
pub use scheduler::sleep::SleepEntry;
pub use scheduler::sleep::SleepQueue;
pub use scheduler::Kernel;
pub use scheduler::Scheduler;
pub use scheduler::SchedulerError;
