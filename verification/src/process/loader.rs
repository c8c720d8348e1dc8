use crate::layout::{PROCESSES_SIZE, PROCESSES_START, PROCESSES_WORDS};
use crate::process::pcb::{BlockReason, ProcessState, PCB};
use crate::scheduler::sleep::SleepEntry;
use crate::scheduler::{lemma_distinct_bounded, Kernel, Scheduler, MAX_PROCS};
use vstd::prelude::*;

verus! {

/// Words in one full saved register image: the 8-word callee-saved block
/// followed by the 8-word hardware exception frame.
pub const FRAME_WORDS: usize = 16;

/// Bytes in one full saved register image.
pub const FRAME_BYTES: usize = 64;

/// Smallest stack size that is guaranteed to hold one full saved register
/// image below the 8-byte-aligned top of the stack, whatever the base
/// address: the 64-byte image plus up to 7 bytes of alignment slack.
pub const MIN_STACK_BYTES: usize = 72;

/// Seed value of the saved link register. A task must never return; if it
/// does, control lands on this sentinel and the system halts.
pub const RETURN_TRAP: u32 = 0xFFFF_FFFF;

/// Seed value of the saved program status register: Thumb bit set,
/// exception number zero.
pub const INITIAL_XPSR: u32 = 0x0100_0000;

/// Creation-time errors, surfaced to the caller of `create_process`.
#[derive(Clone, Copy, Debug, PartialEq, Eq, Structural)]
pub enum ProcessError {
    /// The stack allocator has no room left in the process arena.
    NoMemory,
    /// The requested stack size cannot hold one saved register image.
    InvalidSize,
    /// The process table and ready queue are full.
    NoSpace,
}

/// Largest address with `addr % 8 == 0` that is at most `addr`.
pub open spec fn align8_down(addr: int) -> int {
    addr - addr % 8
}

/// Index in the process-arena word array of the word at `addr`.
pub open spec fn word_index(addr: int) -> int {
    (addr - PROCESSES_START) / 4
}

/// The 16-word image that makes a new task indistinguishable from a
/// preempted one, from low to high address: the callee-saved block
/// `R4..R11`, all zero, then the hardware exception frame
/// `R0, R1, R2, R3, R12, LR, PC, xPSR`. `R0` carries the task's argument,
/// `LR` the return trap, `PC` the entry address with the Thumb bit set.
pub open spec fn initial_frame(entry: u32, arg: u32) -> Seq<u32> {
    seq![
        0u32, 0u32, 0u32, 0u32, 0u32, 0u32, 0u32, 0u32,
        arg, 0u32, 0u32, 0u32, 0u32,
        RETURN_TRAP,
        entry | 1u32,
        INITIAL_XPSR,
    ]
}

/// A task's register file, as far as a context switch saves and restores
/// it: the callee-saved registers the handler stacks by hand, and the
/// registers the exception-entry hardware stacks on its own.
pub struct TaskRegs {
    pub r0: u32,
    pub r1: u32,
    pub r2: u32,
    pub r3: u32,
    pub r4: u32,
    pub r5: u32,
    pub r6: u32,
    pub r7: u32,
    pub r8: u32,
    pub r9: u32,
    pub r10: u32,
    pub r11: u32,
    pub r12: u32,
    pub lr: u32,
    pub pc: u32,
    pub xpsr: u32,
}

/// The 8-word block `R4..R11` that the exception handler saves by hand,
/// because the hardware does not.
pub open spec fn callee_saved_block(regs: TaskRegs) -> Seq<u32> {
    seq![regs.r4, regs.r5, regs.r6, regs.r7, regs.r8, regs.r9, regs.r10, regs.r11]
}

/// The 8-word frame `R0, R1, R2, R3, R12, LR, PC, xPSR` that the hardware
/// stacks on exception entry.
pub open spec fn exception_frame(regs: TaskRegs) -> Seq<u32> {
    seq![regs.r0, regs.r1, regs.r2, regs.r3, regs.r12, regs.lr, regs.pc, regs.xpsr]
}

/// The full 16-word image that preempting a task with register file `regs`
/// writes onto its stack, from low to high address.
pub open spec fn preempt_save_image(regs: TaskRegs) -> Seq<u32> {
    callee_saved_block(regs) + exception_frame(regs)
}

/// The register file a freshly created task holds: its argument in `R0`,
/// the return trap in `LR`, the Thumb-mode entry address in `PC`, the reset
/// program status word, and zero everywhere else.
pub open spec fn initial_regs(entry: u32, arg: u32) -> TaskRegs {
    TaskRegs {
        r0: arg,
        r1: 0,
        r2: 0,
        r3: 0,
        r4: 0,
        r5: 0,
        r6: 0,
        r7: 0,
        r8: 0,
        r9: 0,
        r10: 0,
        r11: 0,
        r12: 0,
        lr: RETURN_TRAP,
        pc: entry | 1,
        xpsr: INITIAL_XPSR,
    }
}

/// Round trip of the frame builder: the image `setup_initial_stack` writes
/// is word-for-word the image that preemption would save for a task holding
/// the seeded register file — so the context switch resumes a new task by
/// exactly the mechanism that resumes a preempted one.
pub proof fn lemma_initial_frame_round_trip(entry: u32, arg: u32)
    ensures
        initial_frame(entry, arg) == preempt_save_image(initial_regs(entry, arg)),
{
    assert(initial_frame(entry, arg) =~= preempt_save_image(initial_regs(entry, arg)));
}

/// Writes the initial saved register image at the high end of a task's
/// stack, so that restoring from the returned `sp` starts the task at
/// `entry` with `arg` in `R0`. The starting stack pointer is rounded down
/// so that after the image is consumed the task's stack pointer is 8-byte
/// aligned, as the calling convention demands. Returns the address of the
/// lowest word of the image.
#[verifier::rlimit(60)]
pub fn setup_initial_stack(
    mem: &mut Vec<u32>,
    stack_base: usize,
    stack_size: usize,
    entry: u32,
    arg: u32,
) -> (sp: usize)
    requires
        old(mem)@.len() == PROCESSES_WORDS,
        PROCESSES_START <= stack_base,
        stack_base + stack_size <= PROCESSES_START + PROCESSES_SIZE,
        MIN_STACK_BYTES <= stack_size,
    ensures
        sp % 8 == 0,
        stack_base <= sp,
        sp + FRAME_BYTES == align8_down(stack_base + stack_size),
        sp + FRAME_BYTES <= stack_base + stack_size,
        final(mem)@.len() == old(mem)@.len(),
        final(mem)@.subrange(word_index(sp as int), word_index(sp as int) + FRAME_WORDS)
            == initial_frame(entry, arg),
        forall|i: int|
            0 <= i < old(mem)@.len()
                && !(word_index(sp as int) <= i < word_index(sp as int) + FRAME_WORDS)
                ==> final(mem)@[i] == old(mem)@[i],
{
    let stack_top = stack_base + stack_size;
    let aligned_top = stack_top - stack_top % 8;
    let sp = aligned_top - FRAME_BYTES;
    let widx = (sp - PROCESSES_START) / 4;

    proof {
        assert(aligned_top % 8 == 0);
        assert(sp % 8 == 0);
        assert(stack_base <= sp);
        assert(PROCESSES_START % 8 == 0);
        assert((sp - PROCESSES_START) % 4 == 0);
        assert(widx == word_index(sp as int));
        assert(widx + FRAME_WORDS <= PROCESSES_WORDS);
    }

    // Callee-saved block R4..R11, all zero.
    mem.set(widx, 0);
    mem.set(widx + 1, 0);
    mem.set(widx + 2, 0);
    mem.set(widx + 3, 0);
    mem.set(widx + 4, 0);
    mem.set(widx + 5, 0);
    mem.set(widx + 6, 0);
    mem.set(widx + 7, 0);

    // Hardware exception frame R0, R1, R2, R3, R12, LR, PC, xPSR.
    mem.set(widx + 8, arg);
    mem.set(widx + 9, 0);
    mem.set(widx + 10, 0);
    mem.set(widx + 11, 0);
    mem.set(widx + 12, 0);
    mem.set(widx + 13, RETURN_TRAP);
    mem.set(widx + 14, entry | 1);
    mem.set(widx + 15, INITIAL_XPSR);

    proof {
        assert(mem@.subrange(widx as int, widx + FRAME_WORDS) =~= initial_frame(entry, arg));
    }

    sp
}

impl Kernel {
    /// Carves the next stack out of the process arena by bumping the
    /// allocation offset, and returns the stack's base address. `InvalidSize`
    /// for an empty request, `NoMemory` when the arena has no room left.
    /// There is no deallocation.
    pub fn allocate_stack(&mut self, size: usize) -> (r: Result<usize, ProcessError>)
        requires
            old(self).next_free <= PROCESSES_SIZE,
        ensures
            size == 0 ==> r == Err::<usize, ProcessError>(ProcessError::InvalidSize) && *final(self) == *old(self),
            size != 0 && old(self).next_free + size > PROCESSES_SIZE ==> r == Err::<
                usize,
                ProcessError,
            >(ProcessError::NoMemory) && *final(self) == *old(self),
            size != 0 && old(self).next_free + size <= PROCESSES_SIZE ==> {
                &&& r == Ok::<usize, ProcessError>(
                    (PROCESSES_START + old(self).next_free) as usize,
                )
                &&& final(self).next_free == old(self).next_free + size
                &&& final(self).procs == old(self).procs
                &&& final(self).current == old(self).current
                &&& final(self).ready == old(self).ready
                &&& final(self).sleep == old(self).sleep
                &&& final(self).mem == old(self).mem
                &&& final(self).next_id == old(self).next_id
            },
    {
        if size == 0 {
            return Err(ProcessError::InvalidSize);
        }
        if size > PROCESSES_SIZE - self.next_free {
            return Err(ProcessError::NoMemory);
        }
        let base = PROCESSES_START + self.next_free;
        self.next_free = self.next_free + size;
        Ok(base)
    }

    /// Creates a process: allocates a stack, writes the initial saved
    /// register image at its top, installs a `Ready` table entry under a
    /// fresh pid, and appends the pid to the ready queue. `entry` is the
    /// address of the task's code (a routine that never returns), `arg` the
    /// word handed to it in `R0`.
    ///
    /// `InvalidSize` rejects every stack too small to hold one saved
    /// register image below the aligned stack top, the empty stack included;
    /// `NoSpace` reports a full process table, `NoMemory` an exhausted
    /// arena. A rejected request changes nothing.
    pub fn create_process(&mut self, stack_size: usize, entry: u32, arg: u32) -> (r: Result<
        u8,
        ProcessError,
    >)
        requires
            old(self).wf(),
        ensures
            final(self).wf(),
            final(self).current == old(self).current,
            stack_size < MIN_STACK_BYTES ==> r == Err::<u8, ProcessError>(
                ProcessError::InvalidSize,
            ) && *final(self) == *old(self),
            stack_size >= MIN_STACK_BYTES && old(self).next_id == MAX_PROCS ==> r == Err::<
                u8,
                ProcessError,
            >(ProcessError::NoSpace) && *final(self) == *old(self),
            stack_size >= MIN_STACK_BYTES && old(self).next_id < MAX_PROCS && old(self).next_free
                + stack_size > PROCESSES_SIZE ==> r == Err::<u8, ProcessError>(
                ProcessError::NoMemory,
            ) && *final(self) == *old(self),
            stack_size >= MIN_STACK_BYTES && old(self).next_id < MAX_PROCS && old(self).next_free
                + stack_size <= PROCESSES_SIZE ==> {
                let pid = old(self).next_id as u8;
                let base = (PROCESSES_START + old(self).next_free) as usize;
                let sp = (align8_down(base + stack_size) - FRAME_BYTES) as usize;
                &&& r == Ok::<u8, ProcessError>(pid)
                &&& final(self).next_id == old(self).next_id + 1
                &&& final(self).next_free == old(self).next_free + stack_size
                &&& final(self).ready@ == old(self).ready@.push(pid)
                &&& final(self).sleep == old(self).sleep
                &&& final(self).procs@ == old(self).procs@.update(
                    pid as int,
                    Some(
                        PCB {
                            sp,
                            pid,
                            state: ProcessState::Ready,
                            stack_base: base,
                            stack_size,
                        },
                    ),
                )
                &&& final(self).mem@.subrange(word_index(sp as int), word_index(sp as int) + 16)
                    == initial_frame(entry, arg)
                &&& forall|i: int|
                    0 <= i < old(self).mem@.len() && !(word_index(sp as int) <= i < word_index(
                        sp as int,
                    ) + 16) ==> final(self).mem@[i] == old(self).mem@[i]
            },
    {
        if stack_size < MIN_STACK_BYTES {
            return Err(ProcessError::InvalidSize);
        }
        if self.next_id as usize >= MAX_PROCS {
            return Err(ProcessError::NoSpace);
        }

        let ghost pre = *self;
        let stack_start = match self.allocate_stack(stack_size) {
            Err(e) => {
                return Err(e);
            },
            Ok(base) => base,
        };

        let sp = setup_initial_stack(&mut self.mem, stack_start, stack_size, entry, arg);

        let id = self.next_id as u8;
        let pcb = PCB {
            sp,
            pid: id,
            state: ProcessState::Ready,
            stack_base: stack_start,
            stack_size,
        };
        self.procs.set(id as usize, Some(pcb));

        proof {
            // the queue has room: its entries are distinct pids below the
            // fresh one
            lemma_distinct_bounded(self.ready@, self.next_id as int);
        }
        let enq = self.ready.enqueue(id);
        proof {
            assert(enq is Ok);
        }
        self.next_id = self.next_id + 1;

        proof {
            let post = *self;
            assert(post.procs@ == pre.procs@.update(id as int, Some(pcb)));
            assert(pcb.wf());
            // the new entry is `Ready`, queued, and disturbs nothing
            assert forall|k: int|
                0 <= k < post.ready@.len() implies post.created(#[trigger] post.ready@[k])
                && post.state_of(post.ready@[k]) is Ready && Some(post.ready@[k])
                != post.current by {
                if k < pre.ready@.len() {
                    assert(post.ready@[k] == pre.ready@[k]);
                    assert(pre.state_of(pre.ready@[k]) is Ready);
                    assert(pre.ready@[k] != id);
                    assert(Some(pre.ready@[k]) != pre.current);
                } else {
                    assert(post.ready@[k] == id);
                    assert(post.current == pre.current);
                    if post.current == Some(id) {
                        assert(pre.created(id));
                    }
                }
            }
            assert(post.ready@.no_duplicates()) by {
                assert forall|k1: int, k2: int|
                    0 <= k1 < k2 < post.ready@.len() implies post.ready@[k1]
                    != post.ready@[k2] by {
                    if k2 < pre.ready@.len() {
                        assert(pre.ready@[k1] != pre.ready@[k2]);
                    } else {
                        assert(post.ready@[k2] == id);
                        assert(pre.ready@[k1] != id);
                    }
                }
            }
            assert forall|p: u8|
                post.created(p) && (#[trigger] post.state_of(p)) is Ready && post.current != Some(
                p,
            ) implies post.ready@.contains(p) by {
                if p == id {
                    assert(post.ready@[post.ready@.len() - 1] == id);
                } else {
                    assert(pre.state_of(p) == post.state_of(p));
                    assert(pre.ready@.contains(p));
                    let k = choose|k: int| 0 <= k < pre.ready@.len() && pre.ready@[k] == p;
                    assert(post.ready@[k] == p);
                }
            }
            assert forall|k: int|
                0 <= k < post.sleep@.len() implies post.created(
                (#[trigger] post.sleep@[k]).pid,
            ) && post.state_of(post.sleep@[k].pid) == ProcessState::Blocked(
                BlockReason::Sleeping(post.sleep@[k].wake_time),
            ) by {
                assert(pre.state_of(pre.sleep@[k].pid) == ProcessState::Blocked(
                    BlockReason::Sleeping(pre.sleep@[k].wake_time),
                ));
                assert(pre.sleep@[k].pid != id);
            }
            assert forall|p: u8|
                post.created(p) implies ((#[trigger] post.state_of(p))
                matches ProcessState::Blocked(BlockReason::Sleeping(wt))
                ==> post.sleep@.contains(SleepEntry { pid: p, wake_time: wt })) by {
                if post.state_of(p) is Blocked && post.state_of(p)->Blocked_0 is Sleeping {
                    assert(p != id);
                    assert(pre.state_of(p) == post.state_of(p));
                }
            }
            assert forall|p: u8|
                post.created(p) && (#[trigger] post.state_of(p)) is Running implies post.current
                == Some(p) by {
                if p != id {
                    assert(pre.state_of(p) is Running);
                }
            }
            assert(post.wf());
        }

        Ok(id)
    }
}

} // verus!
