pub mod round_robin;
pub mod sleep;

use crate::layout::{PROCESSES_SIZE, PROCESSES_START, PROCESSES_WORDS};
use crate::process::loader::FRAME_BYTES;
use crate::process::pcb::{BlockReason, ProcessState, PCB};
use crate::scheduler::round_robin::RR;
use crate::scheduler::sleep::{pids_of, SleepEntry, SleepQueue};
use vstd::multiset::Multiset;
use vstd::prelude::*;

verus! {

broadcast use vstd::seq_lib::group_to_multiset_ensures, vstd::multiset::group_multiset_axioms;

/// Capacity of the process table, the ready queue and the sleep heap.
pub const MAX_PROCS: usize = 256;

/// The scheduling time slice, in microseconds. The platform arms its
/// periodic alarm with this period.
pub const QUANTUM_US: u64 = 10_000;

/// Internal status codes of the scheduling structures. `NotRunnable` is an
/// expected control-flow signal from the sleep heap (the earliest sleeper is
/// not yet due), not a fault.
#[derive(Clone, Copy, Debug, PartialEq, Eq, Structural)]
pub enum SchedulerError {
    NoSpace,
    Empty,
    NoCurrent,
    ProcessNotFound,
    NotRunnable,
}

/// A bounded queue of task ids. The ready queue stores the ids directly;
/// the sleep heap stores them tagged with a wake time. Each implementation
/// states its own behaviour through the two `..._post` spec functions.
/// The monotonic microsecond clock is threaded through `dequeue` as a plain
/// value because only the platform can read it; the ready queue ignores it.
pub trait Scheduler<T>: Sized {
    /// Structural invariant of the queue.
    spec fn sched_inv(self) -> bool;

    /// Relation between the queue before and after `enqueue`.
    spec fn enqueue_post(self, post: Self, entry: T, r: Result<(), SchedulerError>) -> bool;

    /// Relation between the queue before and after `dequeue`.
    spec fn dequeue_post(self, post: Self, now_us: u64, r: Result<u8, SchedulerError>) -> bool;

    fn enqueue(&mut self, entry: T) -> (r: Result<(), SchedulerError>)
        requires
            old(self).sched_inv(),
        ensures
            final(self).sched_inv(),
            old(self).enqueue_post(*final(self), entry, r),
    ;

    fn dequeue(&mut self, now_us: u64) -> (r: Result<u8, SchedulerError>)
        requires
            old(self).sched_inv(),
        ensures
            final(self).sched_inv(),
            old(self).dequeue_post(*final(self), now_us, r),
    ;
}

/// The whole state of the kernel: the process table, the `CURRENT` register,
/// the two scheduling queues, the process-stack arena as an array of words,
/// and the two monotonic counters of the bump allocator and the pid
/// assigner. The exception handlers own the one instance; everything they do
/// to it goes through the methods below.
pub struct Kernel {
    /// Fixed-capacity process table, indexed directly by pid.
    pub procs: Vec<Option<PCB>>,
    /// The running task; `None` only before `start_first_process`.
    pub current: Option<u8>,
    /// Runnable tasks, excluding the current one.
    pub ready: RR,
    /// Pending wakeups of sleeping tasks.
    pub sleep: SleepQueue,
    /// The words of the process-stack arena.
    pub mem: Vec<u32>,
    /// Bump offset of the stack allocator into the process arena.
    pub next_free: usize,
    /// Next pid to assign; pids are never reused.
    pub next_id: u16,
}

impl Kernel {
    /// The pid has been assigned.
    pub open spec fn created(self, p: u8) -> bool {
        (p as int) < self.next_id
    }

    /// The table entry of a created pid.
    pub open spec fn pcb_of(self, p: u8) -> PCB {
        self.procs@[p as int].unwrap()
    }

    /// The state of a created pid.
    pub open spec fn state_of(self, p: u8) -> ProcessState {
        self.pcb_of(p).state
    }

    /// The pid is in the ready queue.
    pub open spec fn in_ready(self, p: u8) -> bool {
        self.ready@.contains(p)
    }

    /// The pid is in the sleep heap.
    pub open spec fn in_sleep(self, p: u8) -> bool {
        pids_of(self.sleep@).contains(p)
    }

    /// The pid is the one executing in thread mode.
    pub open spec fn is_running(self, p: u8) -> bool {
        self.current == Some(p) && self.state_of(p) is Running
    }

    /// Table entries exist exactly for assigned pids, record their own pid,
    /// and keep their saved stack pointer inside their stack.
    pub open spec fn procs_wf(self) -> bool {
        &&& self.procs@.len() == MAX_PROCS
        &&& self.next_id <= MAX_PROCS
        &&& forall|i: int|
            0 <= i < MAX_PROCS ==> ((#[trigger] self.procs@[i]) is Some <==> i < self.next_id)
        &&& forall|i: int|
            0 <= i < self.next_id ==> (#[trigger] self.procs@[i]).unwrap().pid == i
        &&& forall|i: int| 0 <= i < self.next_id ==> (#[trigger] self.procs@[i]).unwrap().wf()
    }

    /// Ready-queue entries are assigned, `Ready`, never the current task,
    /// and pairwise distinct.
    pub open spec fn ready_wf(self) -> bool {
        &&& self.ready.wf()
        &&& self.ready@.no_duplicates()
        &&& forall|k: int|
            0 <= k < self.ready@.len() ==> self.created(#[trigger] self.ready@[k])
        &&& forall|k: int|
            0 <= k < self.ready@.len() ==> self.state_of(#[trigger] self.ready@[k]) is Ready
        &&& forall|k: int|
            0 <= k < self.ready@.len() ==> Some(#[trigger] self.ready@[k]) != self.current
    }

    /// Sleep-heap entries are assigned, blocked sleeping until exactly their
    /// recorded wake time, and carry pairwise distinct pids.
    pub open spec fn sleep_wf(self) -> bool {
        &&& self.sleep.wf()
        &&& pids_of(self.sleep@).no_duplicates()
        &&& forall|k: int|
            0 <= k < self.sleep@.len() ==> self.created((#[trigger] self.sleep@[k]).pid)
        &&& forall|k: int|
            0 <= k < self.sleep@.len() ==> self.state_of((#[trigger] self.sleep@[k]).pid)
                == ProcessState::Blocked(BlockReason::Sleeping(self.sleep@[k].wake_time))
    }

    /// Every task blocked sleeping has its wakeup pending in the heap.
    pub open spec fn sleepers_in_heap(self) -> bool {
        forall|p: u8|
            self.created(p) ==> ((#[trigger] self.state_of(p)) matches ProcessState::Blocked(
                BlockReason::Sleeping(w),
            ) ==> self.sleep@.contains(SleepEntry { pid: p, wake_time: w }))
    }

    /// The current pid is assigned, and no task but the current one is ever
    /// `Running`.
    pub open spec fn current_wf(self) -> bool {
        &&& (self.current matches Some(c) ==> self.created(c))
        &&& forall|p: u8|
            self.created(p) && (#[trigger] self.state_of(p)) is Running ==> self.current == Some(
                p,
            )
    }

    /// Every `Ready` task other than the current one is in the ready queue,
    /// so the queue size equals the number of such tasks.
    pub open spec fn ready_complete(self) -> bool {
        forall|p: u8|
            self.created(p) && (#[trigger] self.state_of(p)) is Ready && self.current != Some(p)
                ==> self.ready@.contains(p)
    }

    /// The arena word array has its fixed size and the bump allocator stays
    /// inside it.
    pub open spec fn mem_wf(self) -> bool {
        &&& self.mem@.len() == PROCESSES_WORDS
        &&& self.next_free <= PROCESSES_SIZE
    }

    /// Well-formedness of the whole kernel state: every method of the
    /// kernel preserves it.
    pub open spec fn wf(self) -> bool {
        &&& self.procs_wf()
        &&& self.ready_wf()
        &&& self.sleep_wf()
        &&& self.sleepers_in_heap()
        &&& self.current_wf()
        &&& self.ready_complete()
        &&& self.mem_wf()
    }

    /// A fresh kernel: no processes, nothing queued, no current task, the
    /// whole arena free.
    pub fn new() -> (k: Kernel)
        ensures
            k.wf(),
            k.current is None,
            k.next_id == 0,
            k.next_free == 0,
            k.ready@ == Seq::<u8>::empty(),
            k.sleep@ == Seq::<SleepEntry>::empty(),
    {
        let mut procs: Vec<Option<PCB>> = Vec::new();
        let mut i: usize = 0;
        while i < MAX_PROCS
            invariant
                i <= MAX_PROCS,
                procs@.len() == i,
                forall|j: int| 0 <= j < i ==> (#[trigger] procs@[j]) is None,
            decreases MAX_PROCS - i,
        {
            procs.push(None);
            i = i + 1;
        }
        let mut mem: Vec<u32> = Vec::new();
        let mut w: usize = 0;
        while w < PROCESSES_WORDS
            invariant
                w <= PROCESSES_WORDS,
                mem@.len() == w,
            decreases PROCESSES_WORDS - w,
        {
            mem.push(0);
            w = w + 1;
        }
        let k = Kernel {
            procs,
            current: None,
            ready: RR::new(),
            sleep: SleepQueue::new(),
            mem,
            next_free: 0,
            next_id: 0,
        };
        proof {
            assert(pids_of(k.sleep@) =~= Seq::<u8>::empty());
        }
        k
    }

    /// The running task's pid, `None` only before the first launch.
    pub fn current(&self) -> (r: Option<u8>)
        ensures
            r == self.current,
    {
        self.current
    }

    /// Drains the sleep heap of every wakeup due at `now_us`: each one's
    /// task becomes `Ready`, and joins the ready queue unless it is the
    /// current task (the pick that follows re-admits the current task
    /// itself). Returns, as a ghost value, the drained wakeups in the order
    /// they left the heap.
    pub fn wake_due(&mut self, now_us: u64) -> (woken: Ghost<Seq<SleepEntry>>)
        requires
            old(self).wf(),
        ensures
            final(self).wf(),
            wake_due_post(*old(self), *final(self), now_us, woken@),
    {
        let ghost pre = *self;
        let ghost mut w: Seq<SleepEntry> = Seq::empty();
        proof {
            lemma_to_multiset_empty::<SleepEntry>();
            assert(self.sleep@.to_multiset().add(w.to_multiset()) =~= pre.sleep@.to_multiset());
            assert(pids_of(w) =~= Seq::<u8>::empty());
            assert(arrivals(w, pre.current) =~= Seq::<u8>::empty());
            assert(self.ready@ =~= pre.ready@ + arrivals(w, pre.current));
        }
        loop
            invariant
                self.wf(),
                pre.wf(),
                self.current == pre.current,
                self.next_id == pre.next_id,
                self.next_free == pre.next_free,
                self.mem == pre.mem,
                self.procs@.len() == pre.procs@.len(),
                self.sleep@.to_multiset().add(w.to_multiset()) == pre.sleep@.to_multiset(),
                forall|k: int| 0 <= k < w.len() ==> (#[trigger] w[k]).wake_time <= now_us,
                sorted_by_wake(w),
                pids_of(w).no_duplicates(),
                forall|k1: int, k2: int|
                    #![trigger w[k1], self.sleep@[k2]]
                    0 <= k1 < w.len() && 0 <= k2 < self.sleep@.len() ==> w[k1].wake_time
                        <= self.sleep@[k2].wake_time,
                self.ready@ == pre.ready@ + arrivals(w, pre.current),
                forall|p: u8|
                    pre.created(p) ==> (#[trigger] self.state_of(p)) == (if pids_of(w).contains(p) {
                        ProcessState::Ready
                    } else {
                        pre.state_of(p)
                    }),
                forall|p: u8|
                    pre.created(p) ==> ((#[trigger] self.pcb_of(p)).sp == pre.pcb_of(p).sp
                        && self.pcb_of(p).stack_base == pre.pcb_of(p).stack_base
                        && self.pcb_of(p).stack_size == pre.pcb_of(p).stack_size),
            ensures
                self.wf(),
                wake_due_post(pre, *self, now_us, w),
            decreases self.sleep@.len(),
        {
            let ghost s0 = *self;
            let r = self.sleep.dequeue(now_us);
            match r {
                Err(_) => {
                    proof {
                        if s0.sleep@.len() > 0 {
                            s0.sleep.lemma_root_min();
                        }
                        assert(forall|k: int|
                            0 <= k < self.sleep@.len() ==> (#[trigger] self.sleep@[k]).wake_time
                                > now_us);
                    }
                    break ;
                }
                Ok(pid) => {
                    let ghost root = s0.sleep@[0];
                    proof {
                        s0.sleep.lemma_root_min();
                        assert(s0.sleep@.contains(root));
                        assert(self.created(pid));
                        // the woken pid cannot already be among the woken:
                        // those are `Ready`, while it was still blocked
                        assert(!pids_of(w).contains(pid));
                        // nor in the ready queue, for the same reason
                        assert(!self.ready@.contains(pid)) by {
                            if self.ready@.contains(pid) {
                                let k = choose|k: int|
                                    0 <= k < self.ready@.len() && self.ready@[k] == pid;
                                assert(s0.state_of(s0.ready@[k]) is Ready);
                            }
                        }
                    }

                    let mut pcb = self.procs[pid as usize].unwrap();
                    pcb.state = ProcessState::Ready;
                    self.procs.set(pid as usize, Some(pcb));

                    let is_current = match self.current {
                        Some(c) => c == pid,
                        None => false,
                    };
                    if !is_current {
                        proof {
                            lemma_distinct_bounded_excluding(
                                self.ready@,
                                self.next_id as int,
                                pid,
                            );
                        }
                        let enq = self.ready.enqueue(pid);
                        proof {
                            assert(enq is Ok);
                        }
                    }

                    proof {
                        let w2 = w.push(root);
                        assert(root.pid == pid);
                        assert(pids_of(w2) =~= pids_of(w).push(pid));
                        assert(self.procs@ == s0.procs@.update(pid as int, Some(pcb)));
                        // the heap lost exactly one occurrence of the root
                        assert(self.sleep@.to_multiset().add(w2.to_multiset())
                            =~= pre.sleep@.to_multiset()) by {
                            assert(w2.to_multiset() =~= w.to_multiset().insert(root));
                            assert(s0.sleep@.to_multiset().add(w.to_multiset())
                                == pre.sleep@.to_multiset());
                            assert(self.sleep@.to_multiset() == s0.sleep@.to_multiset().remove(
                                root,
                            ));
                            assert(s0.sleep@.to_multiset().count(root) > 0);
                        }
                        // remaining wakeups are no earlier than the root
                        assert forall|k2: int|
                            0 <= k2 < self.sleep@.len() implies root.wake_time <= (
                        #[trigger] self.sleep@[k2]).wake_time by {
                            assert(self.sleep@.to_multiset().count(self.sleep@[k2]) > 0) by {
                                assert(self.sleep@.contains(self.sleep@[k2]));
                            }
                            assert(s0.sleep@.to_multiset().count(self.sleep@[k2]) > 0);
                            assert(s0.sleep@.contains(self.sleep@[k2]));
                            let j = choose|j: int|
                                0 <= j < s0.sleep@.len() && s0.sleep@[j] == self.sleep@[k2];
                            assert(s0.sleep@[0].wake_time <= s0.sleep@[j].wake_time);
                        }
                        // the queue grew by the woken pid, unless it is current
                        assert(w2.drop_last() =~= w);
                        if !is_current {
                            assert(arrivals(w2, pre.current) == arrivals(w, pre.current).push(
                                pid,
                            ));
                            assert(self.ready@ =~= pre.ready@ + arrivals(w2, pre.current));
                        } else {
                            assert(arrivals(w2, pre.current) == arrivals(w, pre.current));
                            assert(self.ready@ =~= pre.ready@ + arrivals(w2, pre.current));
                        }
                        // distinct pids stay distinct in the remaining heap
                        assert(pids_of(self.sleep@).to_multiset() == pids_of(
                            s0.sleep@,
                        ).to_multiset().remove(pid));
                        assert(pids_of(self.sleep@).no_duplicates()) by {
                            pids_of(s0.sleep@).lemma_multiset_has_no_duplicates();
                            assert forall|x: u8|
                                pids_of(self.sleep@).to_multiset().contains(x) implies pids_of(
                                self.sleep@,
                            ).to_multiset().count(x) == 1 by {
                                assert(pids_of(s0.sleep@).to_multiset().count(x) >= pids_of(
                                    self.sleep@,
                                ).to_multiset().count(x));
                                assert(pids_of(s0.sleep@).to_multiset().count(x) > 0);
                            }
                            pids_of(self.sleep@).lemma_multiset_has_no_duplicates_conv();
                        }
                        // the woken pid is gone from the heap
                        assert(!pids_of(self.sleep@).contains(pid)) by {
                            pids_of(s0.sleep@).lemma_multiset_has_no_duplicates();
                            assert(pids_of(s0.sleep@).contains(pid)) by {
                                assert(pids_of(s0.sleep@)[0] == pid);
                            }
                            assert(pids_of(s0.sleep@).to_multiset().count(pid) == 1);
                            assert(pids_of(self.sleep@).to_multiset().count(pid) == 0);
                        }
                        // every remaining entry is an entry of the old heap
                        assert forall|k: int|
                            0 <= k < self.sleep@.len() implies s0.sleep@.contains(
                            #[trigger] self.sleep@[k],
                        ) by {
                            assert(self.sleep@.contains(self.sleep@[k]));
                            assert(self.sleep@.to_multiset().count(self.sleep@[k]) > 0);
                            assert(s0.sleep@.to_multiset().count(self.sleep@[k]) > 0);
                        }
                        // so its task is still blocked until its wake time
                        assert forall|k: int|
                            0 <= k < self.sleep@.len() implies self.created(
                            (#[trigger] self.sleep@[k]).pid,
                        ) && self.state_of(self.sleep@[k].pid) == ProcessState::Blocked(
                            BlockReason::Sleeping(self.sleep@[k].wake_time),
                        ) by {
                            let e = self.sleep@[k];
                            let j = choose|j: int|
                                0 <= j < s0.sleep@.len() && s0.sleep@[j] == e;
                            assert(s0.state_of(s0.sleep@[j].pid) == ProcessState::Blocked(
                                BlockReason::Sleeping(s0.sleep@[j].wake_time),
                            ));
                            assert(pids_of(self.sleep@)[k] == e.pid);
                            if e.pid == pid {
                                assert(pids_of(self.sleep@).contains(pid));
                            }
                            assert(e.pid != pid);
                        }
                        // every other sleeper's wakeup is still pending
                        assert forall|p: u8|
                            self.created(p) implies ((#[trigger] self.state_of(
                            p,
                        )) matches ProcessState::Blocked(BlockReason::Sleeping(wt))
                            ==> self.sleep@.contains(SleepEntry { pid: p, wake_time: wt })) by {
                            if self.state_of(p) is Blocked && self.state_of(p)->Blocked_0
                                is Sleeping {
                                let wt = self.state_of(p)->Blocked_0->Sleeping_0;
                                assert(p != pid);
                                assert(s0.state_of(p) == self.state_of(p));
                                let e = SleepEntry { pid: p, wake_time: wt };
                                assert(s0.sleep@.contains(e));
                                assert(s0.sleep@.to_multiset().count(e) > 0);
                                assert(e != root);
                                assert(self.sleep@.to_multiset().count(e) > 0);
                                assert(self.sleep@.contains(e));
                            }
                        }
                        // the woken task is `Ready`, all other states are kept
                        assert(pids_of(w2)[pids_of(w2).len() - 1] == pid);
                        assert(pids_of(w2).contains(pid));
                        assert forall|p: u8|
                            pre.created(p) implies (#[trigger] self.state_of(p)) == (if pids_of(
                            w2,
                        ).contains(p) {
                            ProcessState::Ready
                        } else {
                            pre.state_of(p)
                        }) by {
                            if p == pid {
                                assert(self.state_of(p) == ProcessState::Ready);
                            } else {
                                assert(self.state_of(p) == s0.state_of(p));
                                if pids_of(w2).contains(p) {
                                    let k = choose|k: int|
                                        0 <= k < pids_of(w2).len() && pids_of(w2)[k] == p;
                                    assert(pids_of(w)[k] == p);
                                    assert(pids_of(w).contains(p));
                                }
                                if pids_of(w).contains(p) {
                                    let k = choose|k: int|
                                        0 <= k < pids_of(w).len() && pids_of(w)[k] == p;
                                    assert(pids_of(w2)[k] == p);
                                    assert(pids_of(w2).contains(p));
                                }
                            }
                        }
                        // the ready queue stays well formed and complete
                        assert forall|k: int|
                            0 <= k < self.ready@.len() implies self.created(
                            #[trigger] self.ready@[k],
                        ) && self.state_of(self.ready@[k]) is Ready && Some(self.ready@[k])
                            != self.current by {
                            if k < s0.ready@.len() {
                                assert(s0.ready@[k] == self.ready@[k]);
                                assert(self.ready@[k] != pid);
                            } else {
                                assert(self.ready@[k] == pid);
                            }
                        }
                        assert(self.ready@.no_duplicates()) by {
                            if !is_current {
                                assert(self.ready@ == s0.ready@.push(pid));
                                assert forall|k1: int, k2: int|
                                    0 <= k1 < k2 < self.ready@.len() implies self.ready@[k1]
                                    != self.ready@[k2] by {
                                    if k2 < s0.ready@.len() {
                                        assert(s0.ready@[k1] != s0.ready@[k2]);
                                    } else {
                                        assert(self.ready@[k2] == pid);
                                        assert(s0.ready@[k1] != pid);
                                    }
                                }
                            }
                        }
                        assert forall|p: u8|
                            self.created(p) && (#[trigger] self.state_of(p)) is Ready
                            && self.current != Some(p) implies self.ready@.contains(p) by {
                            if p == pid {
                                assert(!is_current);
                                assert(self.ready@[self.ready@.len() - 1] == pid);
                            } else {
                                assert(s0.state_of(p) == self.state_of(p));
                                assert(s0.ready@.contains(p));
                                let k = choose|k: int|
                                    0 <= k < s0.ready@.len() && s0.ready@[k] == p;
                                assert(self.ready@[k] == p);
                            }
                        }
                        assert forall|p: u8|
                            self.created(p) && (#[trigger] self.state_of(p)) is Running
                            implies self.current == Some(p) by {
                            assert(p != pid);
                            assert(s0.state_of(p) is Running);
                        }
                        assert(self.wf());
                        assert forall|p: u8|
                            pre.created(p) implies ((#[trigger] self.pcb_of(p)).sp == pre.pcb_of(
                            p,
                        ).sp && self.pcb_of(p).stack_base == pre.pcb_of(p).stack_base
                            && self.pcb_of(p).stack_size == pre.pcb_of(p).stack_size) by {
                            if p == pid {
                                assert(self.pcb_of(p) == pcb);
                                assert(pcb.sp == s0.pcb_of(p).sp);
                            } else {
                                assert(self.pcb_of(p) == s0.pcb_of(p));
                            }
                        }
                        w = w2;
                    }
                }
            }
        }
        Ghost(w)
    }

    /// The single scheduling entry point, invoked in handler mode by both
    /// the tick and the yield paths. Wakes the due sleepers, then picks the
    /// head of the ready queue as successor: returns `Some` of the
    /// successor's saved stack pointer to install, after saving `live_sp`
    /// (the interrupted task's live stack pointer) into the outgoing task's
    /// table entry and re-admitting that task to the queue unless it is
    /// blocked. Returns `None` when there is no current task yet, or no
    /// other task to run: the caller then resumes the interrupted task
    /// unchanged.
    pub fn pick_next(&mut self, now_us: u64, live_sp: usize) -> (r: Option<usize>)
        requires
            old(self).wf(),
            old(self).current matches Some(c) ==> sp_in_stack(old(self).pcb_of(c), live_sp),
        ensures
            final(self).wf(),
            pick_next_post(*old(self), *final(self), now_us, live_sp, r),
            old(self).current is Some ==> final(self).current is Some,
            r is None ==> final(self).current == old(self).current,
    {
        let ghost pre = *self;
        let c = match self.current {
            None => {
                return None;
            },
            Some(c) => c,
        };

        // Step 1: re-admit every sleeper whose wake time has passed.
        let woken = self.wake_due(now_us);
        let ghost w = woken@;
        let ghost mid = *self;

        // Step 2: pick the successor; with nothing ready, keep running.
        let next = match self.ready.dequeue(now_us) {
            Err(_) => {
                proof {
                    assert(mid.ready@.len() == 0);
                    assert(pre.ready@ + arrivals(w, pre.current) =~= mid.ready@);
                    assert(pick_next_with(pre, *self, now_us, live_sp, None::<usize>, w));
                }
                return None;
            },
            Ok(n) => n,
        };

        let ghost s1 = *self;
        proof {
            assert(next == mid.ready@[0]);
            assert(next != c);
            assert(s1.ready@ == mid.ready@.drop_first());
        }

        // Step 3: the outgoing task rejoins the queue unless it is blocked,
        // and its live stack pointer is saved.
        let mut old_pcb = self.procs[c as usize].unwrap();
        proof {
            assert(pre.created(c));
            assert(old_pcb == mid.pcb_of(c));
            assert(mid.state_of(c) == (if pids_of(w).contains(c) {
                ProcessState::Ready
            } else {
                pre.state_of(c)
            }));
        }
        let was_runnable = match old_pcb.state {
            ProcessState::Ready | ProcessState::Running => true,
            ProcessState::Blocked(_) => false,
        };
        if was_runnable {
            proof {
                assert(!self.ready@.contains(c)) by {
                    if self.ready@.contains(c) {
                        let k = choose|k: int|
                            0 <= k < self.ready@.len() && self.ready@[k] == c;
                        assert(Some(s1.ready@[k]) != s1.current);
                    }
                }
                lemma_distinct_bounded_excluding(self.ready@, self.next_id as int, c);
            }
            let enq = self.ready.enqueue(c);
            proof {
                assert(enq is Ok);
            }
        }
        old_pcb.sp = live_sp;

        // Step 4: with the outgoing task also the head of the queue, only
        // its stack pointer needs refreshing. The queue never holds the
        // current task, so this path decides nothing.
        if next == c {
            self.procs.set(c as usize, Some(old_pcb));
            return Some(live_sp);
        }

        // Step 5: commit the switch.
        if was_runnable {
            old_pcb.state = ProcessState::Ready;
        }
        self.procs.set(c as usize, Some(old_pcb));
        let mut new_pcb = self.procs[next as usize].unwrap();
        new_pcb.state = ProcessState::Running;
        self.procs.set(next as usize, Some(new_pcb));
        self.current = Some(next);

        proof {
            let post = *self;
            let q = pre.ready@ + arrivals(w, pre.current);
            let c_runnable = pre.state_of(c) is Ready || pre.state_of(c) is Running || pids_of(
                w,
            ).contains(c);
            assert(q =~= mid.ready@);
            assert(was_runnable == (mid.state_of(c) is Ready || mid.state_of(c) is Running));
            assert(was_runnable == c_runnable);
            if was_runnable {
                assert(post.ready@ =~= q.drop_first() + seq![c]);
            } else {
                assert(post.ready@ =~= q.drop_first() + Seq::<u8>::empty());
            }
            // the queue stays well formed and complete
            assert forall|k: int|
                0 <= k < post.ready@.len() implies post.created(#[trigger] post.ready@[k])
                && post.state_of(post.ready@[k]) is Ready && Some(post.ready@[k])
                != post.current by {
                if k < q.len() - 1 {
                    assert(post.ready@[k] == mid.ready@[k + 1]);
                    assert(mid.state_of(mid.ready@[k + 1]) is Ready);
                    assert(Some(mid.ready@[k + 1]) != mid.current);
                    assert(mid.ready@[k + 1] != mid.ready@[0]);
                } else {
                    assert(post.ready@[k] == c);
                }
            }
            assert(post.ready@.no_duplicates()) by {
                assert forall|k1: int, k2: int|
                    0 <= k1 < k2 < post.ready@.len() implies post.ready@[k1]
                    != post.ready@[k2] by {
                    if k2 < q.len() - 1 {
                        assert(mid.ready@[k1 + 1] != mid.ready@[k2 + 1]);
                    } else {
                        assert(post.ready@[k2] == c);
                        assert(Some(mid.ready@[k1 + 1]) != mid.current);
                    }
                }
            }
            assert forall|p: u8|
                post.created(p) && (#[trigger] post.state_of(p)) is Ready && post.current != Some(
                p,
            ) implies post.ready@.contains(p) by {
                if p == c {
                    assert(was_runnable);
                    assert(post.ready@[post.ready@.len() - 1] == c);
                } else {
                    assert(p != next);
                    assert(mid.state_of(p) == post.state_of(p));
                    assert(mid.ready@.contains(p));
                    let k = choose|k: int| 0 <= k < mid.ready@.len() && mid.ready@[k] == p;
                    assert(k != 0);
                    assert(post.ready@[k - 1] == p);
                }
            }
            // only the new current task is running
            assert forall|p: u8|
                post.created(p) && (#[trigger] post.state_of(p)) is Running implies post.current
                == Some(p) by {
                if p != next {
                    assert(p != c);
                    assert(mid.state_of(p) is Running);
                    assert(mid.current == Some(p));
                }
            }
            // the sleep heap and its sleepers are untouched by the commit
            assert forall|k: int|
                0 <= k < post.sleep@.len() implies post.created(
                (#[trigger] post.sleep@[k]).pid,
            ) && post.state_of(post.sleep@[k].pid) == ProcessState::Blocked(
                BlockReason::Sleeping(post.sleep@[k].wake_time),
            ) by {
                let p = post.sleep@[k].pid;
                assert(mid.state_of(p) == ProcessState::Blocked(
                    BlockReason::Sleeping(mid.sleep@[k].wake_time),
                ));
                assert(p != next);
                if p == c {
                    assert(!was_runnable);
                }
            }
            assert forall|p: u8|
                post.created(p) implies ((#[trigger] post.state_of(p))
                matches ProcessState::Blocked(BlockReason::Sleeping(wt))
                ==> post.sleep@.contains(SleepEntry { pid: p, wake_time: wt })) by {
                if post.state_of(p) is Blocked && post.state_of(p)->Blocked_0 is Sleeping {
                    assert(p != next);
                    if p == c {
                        assert(!was_runnable);
                    }
                    assert(mid.state_of(p) == post.state_of(p));
                }
            }
            assert(post.wf());
            // the remaining clauses of the decision relation
            assert(post.sleep == mid.sleep);
            assert(post.pcb_of(next).sp == pre.pcb_of(next).sp) by {
                assert(mid.pcb_of(next).sp == pre.pcb_of(next).sp);
            }
            assert(post.pcb_of(c).sp == live_sp);
            assert(post.state_of(next) is Running);
            assert(post.state_of(c) == (if c_runnable {
                ProcessState::Ready
            } else {
                pre.state_of(c)
            }));
            assert forall|p: u8|
                pre.created(p) && p != c && p != next implies (#[trigger] post.state_of(p)) == (
            if pids_of(w).contains(p) {
                ProcessState::Ready
            } else {
                pre.state_of(p)
            }) by {
                assert(post.state_of(p) == mid.state_of(p));
            }
            assert forall|p: u8|
                pre.created(p) implies ((#[trigger] post.pcb_of(p)).stack_base == pre.pcb_of(
                p,
            ).stack_base && post.pcb_of(p).stack_size == pre.pcb_of(p).stack_size && (p != c
                ==> post.pcb_of(p).sp == pre.pcb_of(p).sp)) by {
                assert(mid.pcb_of(p).stack_base == pre.pcb_of(p).stack_base);
                if p == c {
                    assert(post.pcb_of(p) == old_pcb);
                } else if p == next {
                    assert(post.pcb_of(p) == new_pcb);
                    assert(new_pcb.sp == mid.pcb_of(next).sp);
                } else {
                    assert(post.pcb_of(p) == mid.pcb_of(p));
                }
            }
            assert(pick_next_with(pre, post, now_us, live_sp, Some(new_pcb.sp), w));
        }
        Some(new_pcb.sp)
    }

    /// Blocks the current task until the clock reaches
    /// `now_us + ms * 1000`: its state becomes `Blocked(Sleeping(..))` and
    /// its wakeup joins the sleep heap. The caller then pends the yield
    /// vector; the next scheduling pass skips the blocked task, and
    /// `pick_next` re-admits it once the wake time has passed — so the task
    /// never resumes before it. With no current task, `NoCurrent`.
    ///
    /// A task that is already blocked is never executing, so it cannot be
    /// the caller; the contract rules that state out.
    pub fn sleep_ms(&mut self, now_us: u64, ms: u32) -> (r: Result<(), SchedulerError>)
        requires
            old(self).wf(),
            now_us + ms as int * 1000 <= u64::MAX,
            old(self).current matches Some(c) ==> !(old(self).state_of(c) is Blocked),
        ensures
            final(self).wf(),
            old(self).current is None ==> r == Err::<(), SchedulerError>(SchedulerError::NoCurrent)
                && *final(self) == *old(self),
            old(self).current matches Some(c) ==> {
                let wake_time = (now_us + ms as int * 1000) as u64;
                &&& r == Ok::<(), SchedulerError>(())
                &&& final(self).current == old(self).current
                &&& final(self).state_of(c) == ProcessState::Blocked(
                    BlockReason::Sleeping(wake_time),
                )
                &&& final(self).sleep@.to_multiset() == old(self).sleep@.to_multiset().insert(
                    SleepEntry { pid: c, wake_time },
                )
                &&& final(self).sleep@.len() == old(self).sleep@.len() + 1
                &&& final(self).ready == old(self).ready
                &&& final(self).next_id == old(self).next_id
                &&& final(self).next_free == old(self).next_free
                &&& final(self).mem == old(self).mem
                &&& final(self).procs@.len() == old(self).procs@.len()
                &&& forall|p: u8|
                    old(self).created(p) && p != c ==> (#[trigger] final(self).pcb_of(p)) == old(
                        self,
                    ).pcb_of(p)
                &&& final(self).pcb_of(c).sp == old(self).pcb_of(c).sp
                &&& final(self).pcb_of(c).stack_base == old(self).pcb_of(c).stack_base
                &&& final(self).pcb_of(c).stack_size == old(self).pcb_of(c).stack_size
            },
    {
        let c = match self.current {
            None => {
                return Err(SchedulerError::NoCurrent);
            },
            Some(c) => c,
        };
        let wake_time = now_us + (ms as u64) * 1000;
        let ghost pre = *self;

        let mut pcb = self.procs[c as usize].unwrap();
        pcb.state = ProcessState::Blocked(BlockReason::Sleeping(wake_time));
        self.procs.set(c as usize, Some(pcb));

        proof {
            // the heap has room: its pids are distinct, bounded by the pid
            // counter, and the current task is not among them
            assert(!pids_of(pre.sleep@).contains(c)) by {
                if pids_of(pre.sleep@).contains(c) {
                    let k = choose|k: int|
                        0 <= k < pids_of(pre.sleep@).len() && pids_of(pre.sleep@)[k] == c;
                    assert(pre.state_of(pre.sleep@[k].pid) is Blocked);
                }
            }
            lemma_distinct_bounded_excluding(pids_of(self.sleep@), self.next_id as int, c);
            assert(pids_of(self.sleep@).len() == self.sleep@.len());
        }

        let entry = SleepEntry { pid: c, wake_time };
        let enq = self.sleep.enqueue(entry);
        match enq {
            Ok(_) => {
                proof {
                    let post = *self;
                    // each pending wakeup is either an old one or the new one
                    assert forall|k: int|
                        0 <= k < post.sleep@.len() implies post.created(
                        (#[trigger] post.sleep@[k]).pid,
                    ) && post.state_of(post.sleep@[k].pid) == ProcessState::Blocked(
                        BlockReason::Sleeping(post.sleep@[k].wake_time),
                    ) by {
                        let e = post.sleep@[k];
                        assert(post.sleep@.contains(e));
                        assert(post.sleep@.to_multiset().count(e) > 0);
                        if e != entry {
                            assert(pre.sleep@.to_multiset().count(e) > 0);
                            assert(pre.sleep@.contains(e));
                            let j = choose|j: int|
                                0 <= j < pre.sleep@.len() && pre.sleep@[j] == e;
                            assert(pre.state_of(pre.sleep@[j].pid) == ProcessState::Blocked(
                                BlockReason::Sleeping(pre.sleep@[j].wake_time),
                            ));
                            assert(e.pid != c) by {
                                if e.pid == c {
                                    assert(pre.state_of(c) is Blocked);
                                }
                            }
                        }
                    }
                    // the pids stay pairwise distinct
                    assert(pids_of(post.sleep@).to_multiset() == pids_of(
                        pre.sleep@,
                    ).to_multiset().insert(c));
                    assert(pids_of(post.sleep@).no_duplicates()) by {
                        pids_of(pre.sleep@).lemma_multiset_has_no_duplicates();
                        assert forall|x: u8|
                            pids_of(post.sleep@).to_multiset().contains(x) implies pids_of(
                            post.sleep@,
                        ).to_multiset().count(x) == 1 by {
                            if x == c {
                                assert(pids_of(pre.sleep@).to_multiset().count(c) == 0);
                            } else {
                                assert(pids_of(post.sleep@).to_multiset().count(x) == pids_of(
                                    pre.sleep@,
                                ).to_multiset().count(x));
                                assert(pids_of(pre.sleep@).to_multiset().count(x) > 0);
                            }
                        }
                        pids_of(post.sleep@).lemma_multiset_has_no_duplicates_conv();
                    }
                    // every sleeper's wakeup is pending, the new one included
                    assert forall|p: u8|
                        post.created(p) implies ((#[trigger] post.state_of(p))
                        matches ProcessState::Blocked(BlockReason::Sleeping(wt))
                        ==> post.sleep@.contains(SleepEntry { pid: p, wake_time: wt })) by {
                        if post.state_of(p) is Blocked && post.state_of(p)->Blocked_0
                            is Sleeping {
                            let wt = post.state_of(p)->Blocked_0->Sleeping_0;
                            let e = SleepEntry { pid: p, wake_time: wt };
                            if p == c {
                                assert(e == entry);
                                assert(post.sleep@.to_multiset().count(entry) > 0);
                            } else {
                                assert(pre.state_of(p) == post.state_of(p));
                                assert(pre.sleep@.contains(e));
                                assert(pre.sleep@.to_multiset().count(e) > 0);
                                assert(post.sleep@.to_multiset().count(e) > 0);
                            }
                            assert(post.sleep@.contains(e));
                        }
                    }
                    // the ready queue is untouched and its entries unchanged
                    assert forall|k: int|
                        0 <= k < post.ready@.len() implies post.created(
                        #[trigger] post.ready@[k],
                    ) && post.state_of(post.ready@[k]) is Ready && Some(post.ready@[k])
                        != post.current by {
                        assert(pre.ready@[k] == post.ready@[k]);
                        assert(Some(pre.ready@[k]) != pre.current);
                        assert(pre.state_of(pre.ready@[k]) is Ready);
                    }
                    assert forall|p: u8|
                        post.created(p) && (#[trigger] post.state_of(p)) is Ready && post.current
                        != Some(p) implies post.ready@.contains(p) by {
                        assert(p != c);
                        assert(pre.state_of(p) == post.state_of(p));
                    }
                    assert forall|p: u8|
                        post.created(p) && (#[trigger] post.state_of(p)) is Running
                        implies post.current == Some(p) by {
                        assert(p != c);
                        assert(pre.state_of(p) is Running);
                    }
                    assert(post.wf());
                }
                Ok(())
            },
            Err(e) => {
                // A full heap would reject the wakeup. The heap always has
                // room for the current task, so this cannot happen; were it
                // to, the task is restored to `Ready` and the error
                // surfaced.
                let mut revert = self.procs[c as usize].unwrap();
                revert.state = ProcessState::Ready;
                self.procs.set(c as usize, Some(revert));
                Err(e)
            },
        }
    }

    /// Launches multitasking: the first task of the ready queue becomes the
    /// running, current task, and its saved stack pointer is returned for
    /// the machine-specific launch code to install. `Empty` when no process
    /// has been created.
    pub fn start_first_process(&mut self) -> (r: Result<usize, SchedulerError>)
        requires
            old(self).wf(),
            old(self).current is None,
        ensures
            final(self).wf(),
            old(self).ready@.len() == 0 ==> r == Err::<usize, SchedulerError>(
                SchedulerError::Empty,
            ) && *final(self) == *old(self),
            old(self).ready@.len() > 0 ==> {
                let first = old(self).ready@[0];
                &&& r == Ok::<usize, SchedulerError>(old(self).pcb_of(first).sp)
                &&& final(self).current == Some(first)
                &&& final(self).state_of(first) is Running
                &&& final(self).ready@ == old(self).ready@.drop_first()
                &&& final(self).sleep == old(self).sleep
                &&& final(self).next_id == old(self).next_id
                &&& final(self).next_free == old(self).next_free
                &&& final(self).mem == old(self).mem
                &&& final(self).procs@.len() == old(self).procs@.len()
                &&& forall|p: u8|
                    old(self).created(p) && p != first ==> (#[trigger] final(self).pcb_of(p))
                        == old(self).pcb_of(p)
                &&& final(self).pcb_of(first).sp == old(self).pcb_of(first).sp
            },
    {
        let ghost pre = *self;
        let first = match self.ready.dequeue(0) {
            Err(e) => {
                return Err(e);
            },
            Ok(p) => p,
        };

        let mut pcb = self.procs[first as usize].unwrap();
        pcb.state = ProcessState::Running;
        self.procs.set(first as usize, Some(pcb));
        self.current = Some(first);

        proof {
            let post = *self;
            assert forall|k: int|
                0 <= k < post.ready@.len() implies post.created(#[trigger] post.ready@[k])
                && post.state_of(post.ready@[k]) is Ready && Some(post.ready@[k])
                != post.current by {
                assert(post.ready@[k] == pre.ready@[k + 1]);
                assert(pre.state_of(pre.ready@[k + 1]) is Ready);
                assert(pre.ready@[k + 1] != pre.ready@[0]);
            }
            assert forall|p: u8|
                post.created(p) && (#[trigger] post.state_of(p)) is Ready && post.current != Some(
                p,
            ) implies post.ready@.contains(p) by {
                assert(p != first);
                assert(pre.state_of(p) == post.state_of(p));
                assert(pre.ready@.contains(p));
                let k = choose|k: int| 0 <= k < pre.ready@.len() && pre.ready@[k] == p;
                assert(k != 0);
                assert(post.ready@[k - 1] == p);
            }
            assert forall|p: u8|
                post.created(p) && (#[trigger] post.state_of(p)) is Running implies post.current
                == Some(p) by {
                if p != first {
                    assert(pre.state_of(p) is Running);
                }
            }
            assert forall|k: int|
                0 <= k < post.sleep@.len() implies post.created(
                (#[trigger] post.sleep@[k]).pid,
            ) && post.state_of(post.sleep@[k].pid) == ProcessState::Blocked(
                BlockReason::Sleeping(post.sleep@[k].wake_time),
            ) by {
                assert(pre.state_of(pre.sleep@[k].pid) == ProcessState::Blocked(
                    BlockReason::Sleeping(pre.sleep@[k].wake_time),
                ));
                assert(pre.sleep@[k].pid != first);
            }
            assert forall|p: u8|
                post.created(p) implies ((#[trigger] post.state_of(p))
                matches ProcessState::Blocked(BlockReason::Sleeping(wt))
                ==> post.sleep@.contains(SleepEntry { pid: p, wake_time: wt })) by {
                if post.state_of(p) is Blocked && post.state_of(p)->Blocked_0 is Sleeping {
                    assert(p != first);
                    assert(pre.state_of(p) == post.state_of(p));
                }
            }
            assert(post.wf());
        }
        Ok(pcb.sp)
    }
}

/// The address lies inside the stack recorded in `pcb`, with room for one
/// full saved register image above it, at an 8-byte-aligned address.
pub open spec fn sp_in_stack(pcb: PCB, sp: usize) -> bool {
    &&& pcb.stack_base <= sp
    &&& sp + FRAME_BYTES <= pcb.stack_base + pcb.stack_size
    &&& sp % 8 == 0
}

/// One scheduling decision, with the drained wakeups `woken` made explicit:
/// due sleepers are woken first; then the head of the ready queue, if any,
/// becomes current and its saved stack pointer is returned, while the
/// preempted task's live stack pointer is saved and, unless it is blocked,
/// the task rejoins the tail of the queue. With nothing ready the decision
/// is to keep running the current task, and nothing but the wakeups changes.
pub open spec fn pick_next_with(
    pre: Kernel,
    post: Kernel,
    now_us: u64,
    live_sp: usize,
    r: Option<usize>,
    woken: Seq<SleepEntry>,
) -> bool {
    let c = pre.current.unwrap();
    let q = pre.ready@ + arrivals(woken, pre.current);
    let c_runnable = pre.state_of(c) is Ready || pre.state_of(c) is Running || pids_of(
        woken,
    ).contains(c);
    &&& pre.current is Some
    // the wakeups that were due left the heap, earliest first
    &&& post.sleep@.to_multiset().add(woken.to_multiset()) == pre.sleep@.to_multiset()
    &&& forall|k: int| 0 <= k < post.sleep@.len() ==> (#[trigger] post.sleep@[k]).wake_time > now_us
    &&& forall|k: int| 0 <= k < woken.len() ==> (#[trigger] woken[k]).wake_time <= now_us
    &&& sorted_by_wake(woken)
    &&& pids_of(woken).no_duplicates()
    // the allocator, the pid counter and the arena are untouched
    &&& post.next_id == pre.next_id
    &&& post.next_free == pre.next_free
    &&& post.mem == pre.mem
    &&& post.procs@.len() == pre.procs@.len()
    &&& forall|p: u8|
        pre.created(p) ==> ((#[trigger] post.pcb_of(p)).stack_base == pre.pcb_of(p).stack_base
            && post.pcb_of(p).stack_size == pre.pcb_of(p).stack_size && (p != c
            ==> post.pcb_of(p).sp == pre.pcb_of(p).sp))
    &&& if q.len() == 0 {
        // nothing to run but the current task: no switch
        &&& r is None
        &&& post.current == pre.current
        &&& post.ready@ == q
        &&& post.pcb_of(c).sp == pre.pcb_of(c).sp
        &&& forall|p: u8|
            pre.created(p) ==> (#[trigger] post.state_of(p)) == (if pids_of(woken).contains(p) {
                ProcessState::Ready
            } else {
                pre.state_of(p)
            })
    } else {
        // the head of the queue takes over
        let next = q[0];
        &&& next != c
        &&& r == Some(post.pcb_of(next).sp)
        &&& post.pcb_of(next).sp == pre.pcb_of(next).sp
        &&& post.current == Some(next)
        &&& post.state_of(next) is Running
        &&& post.pcb_of(c).sp == live_sp
        &&& post.state_of(c) == (if c_runnable {
            ProcessState::Ready
        } else {
            pre.state_of(c)
        })
        &&& post.ready@ == q.drop_first() + (if c_runnable {
            seq![c]
        } else {
            Seq::<u8>::empty()
        })
        &&& forall|p: u8|
            pre.created(p) && p != c && p != next ==> (#[trigger] post.state_of(p)) == (if pids_of(
                woken,
            ).contains(p) {
                ProcessState::Ready
            } else {
                pre.state_of(p)
            })
    }
}

/// What one call of `pick_next` does. Which wakeups were pending is the
/// heap's business, so they are existentially quantified; everything else is
/// determined by them.
pub open spec fn pick_next_post(
    pre: Kernel,
    post: Kernel,
    now_us: u64,
    live_sp: usize,
    r: Option<usize>,
) -> bool {
    if pre.current is None {
        r is None && post == pre
    } else {
        exists|woken: Seq<SleepEntry>|
            #[trigger] pick_next_with(pre, post, now_us, live_sp, r, woken)
    }
}

/// Nondecreasing in wake time.
pub open spec fn sorted_by_wake(s: Seq<SleepEntry>) -> bool {
    forall|i: int, j: int|
        #![trigger s[i], s[j]]
        0 <= i <= j < s.len() ==> s[i].wake_time <= s[j].wake_time
}

/// The pids among `woken` that join the ready queue, in waking order: all of
/// them except the current task.
pub open spec fn arrivals(woken: Seq<SleepEntry>, current: Option<u8>) -> Seq<u8>
    decreases woken.len(),
{
    if woken.len() == 0 {
        Seq::empty()
    } else {
        let rest = arrivals(woken.drop_last(), current);
        if Some(woken.last().pid) != current {
            rest.push(woken.last().pid)
        } else {
            rest
        }
    }
}

/// What draining the due sleepers at `now_us` does: `woken` lists the
/// wakeups that left the heap, earliest first; exactly the not-yet-due
/// wakeups remain; every woken task is `Ready` and, unless it is the current
/// task, appended to the ready queue in waking order; nothing else changes.
pub open spec fn wake_due_post(
    pre: Kernel,
    post: Kernel,
    now_us: u64,
    woken: Seq<SleepEntry>,
) -> bool {
    &&& post.current == pre.current
    &&& post.next_id == pre.next_id
    &&& post.next_free == pre.next_free
    &&& post.mem == pre.mem
    &&& post.procs@.len() == pre.procs@.len()
    &&& post.sleep@.to_multiset().add(woken.to_multiset()) == pre.sleep@.to_multiset()
    &&& forall|k: int| 0 <= k < post.sleep@.len() ==> (#[trigger] post.sleep@[k]).wake_time > now_us
    &&& forall|k: int| 0 <= k < woken.len() ==> (#[trigger] woken[k]).wake_time <= now_us
    &&& sorted_by_wake(woken)
    &&& pids_of(woken).no_duplicates()
    &&& post.ready@ == pre.ready@ + arrivals(woken, pre.current)
    &&& forall|p: u8|
        pre.created(p) ==> (#[trigger] post.state_of(p)) == (if pids_of(woken).contains(p) {
            ProcessState::Ready
        } else {
            pre.state_of(p)
        })
    &&& forall|p: u8|
        pre.created(p) ==> ((#[trigger] post.pcb_of(p)).sp == pre.pcb_of(p).sp
            && post.pcb_of(p).stack_base == pre.pcb_of(p).stack_base
            && post.pcb_of(p).stack_size == pre.pcb_of(p).stack_size)
}

/// One scheduling decision, with its inputs abstracted away: how the states
/// of a trace produced by repeated calls of `pick_next` follow one another.
pub open spec fn scheduling_step(pre: Kernel, post: Kernel) -> bool {
    &&& pre.wf()
    &&& post.wf()
    &&& exists|now_us: u64, live_sp: usize, r: Option<usize>|
        #[trigger] pick_next_post(pre, post, now_us, live_sp, r)
}

impl Kernel {
    /// The `Ready` tasks that are not the current one.
    pub open spec fn ready_set(self) -> Set<u8> {
        Set::new(
            |p: u8| self.created(p) && self.state_of(p) is Ready && self.current != Some(p),
        )
    }
}

/// Once multitasking has started there is always a current task: a
/// scheduling decision never clears the `CURRENT` register.
pub proof fn lemma_current_remains(
    pre: Kernel,
    post: Kernel,
    now_us: u64,
    live_sp: usize,
    r: Option<usize>,
)
    requires
        pre.current is Some,
        pick_next_post(pre, post, now_us, live_sp, r),
    ensures
        post.current is Some,
{
    let woken = choose|woken: Seq<SleepEntry>|
        #[trigger] pick_next_with(pre, post, now_us, live_sp, r, woken);
    // with nothing to run the register is left as it was, already `Some`;
    // otherwise the head of the queue is written into it
    assert(pick_next_with(pre, post, now_us, live_sp, r, woken));
}

/// A pid is in at most one place: the ready queue, the sleep heap, or
/// running as the current task.
pub proof fn lemma_pid_in_one_place(k: Kernel, p: u8)
    requires
        k.wf(),
    ensures
        !(k.in_ready(p) && k.in_sleep(p)),
        k.is_running(p) ==> !k.in_ready(p),
        k.is_running(p) ==> !k.in_sleep(p),
{
    if k.in_ready(p) {
        let i = choose|i: int| 0 <= i < k.ready@.len() && k.ready@[i] == p;
        assert(k.state_of(k.ready@[i]) is Ready);
    }
    if k.in_sleep(p) {
        let j = choose|j: int| 0 <= j < pids_of(k.sleep@).len() && pids_of(k.sleep@)[j] == p;
        assert(k.state_of(k.sleep@[j].pid) is Blocked);
    }
}

/// Every table entry keeps its saved stack pointer inside its stack, with
/// room for one full saved register image above it.
pub proof fn lemma_stack_bounds(k: Kernel, p: u8)
    requires
        k.wf(),
        k.created(p),
    ensures
        k.pcb_of(p).stack_base <= k.pcb_of(p).sp,
        k.pcb_of(p).sp + FRAME_BYTES <= k.pcb_of(p).stack_base + k.pcb_of(p).stack_size,
{
    assert(k.procs@[p as int].unwrap().wf());
}

/// The ready queue's size equals the number of `Ready` tasks other than the
/// current one: it holds each of them exactly once.
pub proof fn lemma_ready_queue_counts_ready(k: Kernel)
    requires
        k.wf(),
    ensures
        k.ready_set().finite(),
        k.ready@.len() == k.ready_set().len(),
{
    broadcast use vstd::set::group_set_axioms;

    k.ready@.unique_seq_to_set();
    assert(k.ready@.to_set() =~= k.ready_set()) by {
        assert forall|p: u8| k.ready@.to_set().contains(p) implies k.ready_set().contains(p) by {
            let i = choose|i: int| 0 <= i < k.ready@.len() && k.ready@[i] == p;
            assert(k.state_of(k.ready@[i]) is Ready);
            assert(Some(k.ready@[i]) != k.current);
        }
    }
}

/// Round-robin rotation: with no sleeper due and the current task running,
/// one scheduling decision hands the CPU to the head of the ready queue and
/// sends the preempted task to the tail. The rest of the queue moves up one
/// place.
pub proof fn lemma_round_robin_rotation(
    pre: Kernel,
    post: Kernel,
    now_us: u64,
    live_sp: usize,
    r: Option<usize>,
)
    requires
        pre.wf(),
        pick_next_post(pre, post, now_us, live_sp, r),
        pre.current matches Some(c) && pre.state_of(c) is Running,
        pre.sleep@.len() == 0,
        pre.ready@.len() > 0,
    ensures
        post.current == Some(pre.ready@[0]),
        post.ready@ == pre.ready@.drop_first().push(pre.current.unwrap()),
        post.sleep@.len() == 0,
        post.state_of(pre.ready@[0]) is Running,
        post.state_of(pre.current.unwrap()) is Ready,
        r == Some(pre.pcb_of(pre.ready@[0]).sp),
{
    let woken = choose|woken: Seq<SleepEntry>|
        #[trigger] pick_next_with(pre, post, now_us, live_sp, r, woken);
    lemma_to_multiset_empty::<SleepEntry>();
    assert(pre.sleep@ =~= Seq::<SleepEntry>::empty());
    assert(woken.len() == 0) by {
        if woken.len() > 0 {
            let we = woken[0];
            assert(woken.contains(we));
            assert(woken.to_multiset().count(we) > 0);
            assert(pre.sleep@.to_multiset().count(we) > 0);
            assert(pre.sleep@.contains(we));
        }
    }
    assert(woken =~= Seq::<SleepEntry>::empty());
    assert(arrivals(woken, pre.current) =~= Seq::<u8>::empty());
    let q = pre.ready@ + arrivals(woken, pre.current);
    assert(q =~= pre.ready@);
    assert(post.sleep@.len() == 0) by {
        if post.sleep@.len() > 0 {
            let e = post.sleep@[0];
            assert(post.sleep@.contains(e));
            assert(post.sleep@.to_multiset().count(e) > 0);
            assert(pre.sleep@.to_multiset().count(e) > 0);
            assert(pre.sleep@.contains(e));
        }
    }
    let c = pre.current.unwrap();
    assert(post.ready@ =~= pre.ready@.drop_first().push(c));
    assert(post.pcb_of(pre.ready@[0]).sp == pre.pcb_of(pre.ready@[0]).sp);
}

/// Fairness: with no task sleeping and the current task always runnable,
/// the task `i` places from the head of the ready queue is the current task
/// after `i + 1` consecutive scheduling decisions. Decisions are one quantum
/// apart, so with `n` runnable tasks every task runs at least once in every
/// window of `n` quanta.
pub proof fn lemma_fairness(trace: Seq<Kernel>, i: int)
    requires
        forall|j: int| 0 <= j < trace.len() - 1 ==> scheduling_step(#[trigger] trace[j], trace[j + 1]),
        trace.len() >= 2,
        trace[0].current matches Some(c) && trace[0].state_of(c) is Running,
        trace[0].sleep@.len() == 0,
        0 <= i < trace[0].ready@.len(),
        i + 2 <= trace.len(),
    ensures
        trace[i + 1].current == Some(trace[0].ready@[i]),
    decreases i,
{
    assert(scheduling_step(trace[0], trace[1]));
    let (now_us, live_sp, r) = choose|now_us: u64, live_sp: usize, r: Option<usize>|
        #[trigger] pick_next_post(trace[0], trace[1], now_us, live_sp, r);
    lemma_round_robin_rotation(trace[0], trace[1], now_us, live_sp, r);
    if i == 0 {
    } else {
        let rest = trace.drop_first();
        assert forall|j: int| 0 <= j < rest.len() - 1 implies scheduling_step(
            #[trigger] rest[j],
            rest[j + 1],
        ) by {
            assert(rest[j] == trace[j + 1]);
            assert(rest[j + 1] == trace[j + 2]);
            assert(scheduling_step(trace[j + 1], trace[j + 2]));
        }
        assert(rest[0] == trace[1]);
        assert(trace[1].ready@[i - 1] == trace[0].ready@[i]);
        lemma_fairness(rest, i - 1);
        assert(rest[i] == trace[i + 1]);
    }
}

/// Sleep lower bound: a task blocked until a wake time that has not yet
/// arrived is neither woken, nor scheduled, nor readied by a scheduling
/// decision, as long as some other task is ready to run. (With nothing
/// ready at all, the hardware resumes the interrupted context instead; the
/// design assumes at least one always-ready task.)
pub proof fn lemma_no_early_wake(
    pre: Kernel,
    post: Kernel,
    now_us: u64,
    live_sp: usize,
    r: Option<usize>,
    p: u8,
)
    requires
        pre.wf(),
        post.wf(),
        pick_next_post(pre, post, now_us, live_sp, r),
        pre.current is Some,
        pre.created(p),
        pre.state_of(p) matches ProcessState::Blocked(BlockReason::Sleeping(wt)) && now_us < wt,
        pre.ready@.len() > 0,
    ensures
        post.state_of(p) == pre.state_of(p),
        post.current != Some(p),
        !post.ready@.contains(p),
        post.sleep@.contains(
            SleepEntry { pid: p, wake_time: pre.state_of(p)->Blocked_0->Sleeping_0 },
        ),
{
    broadcast use vstd::seq_lib::group_to_multiset_ensures, vstd::multiset::group_multiset_axioms;

    let woken = choose|woken: Seq<SleepEntry>|
        #[trigger] pick_next_with(pre, post, now_us, live_sp, r, woken);
    let wt = pre.state_of(p)->Blocked_0->Sleeping_0;
    let e = SleepEntry { pid: p, wake_time: wt };
    let c = pre.current.unwrap();
    // the task's wakeup is pending and not yet due, so it is not drained
    assert(pre.sleep@.contains(e));
    assert(!pids_of(woken).contains(p)) by {
        if pids_of(woken).contains(p) {
            let k = choose|k: int| 0 <= k < pids_of(woken).len() && pids_of(woken)[k] == p;
            let we = woken[k];
            assert(woken.contains(we));
            assert(woken.to_multiset().count(we) > 0);
            assert(pre.sleep@.to_multiset().count(we) > 0);
            assert(pre.sleep@.contains(we));
            let j = choose|j: int| 0 <= j < pre.sleep@.len() && pre.sleep@[j] == we;
            assert(pre.state_of(pre.sleep@[j].pid) == ProcessState::Blocked(
                BlockReason::Sleeping(pre.sleep@[j].wake_time),
            ));
            assert(we.wake_time == wt);
            assert(we.wake_time <= now_us);
        }
    }
    let q = pre.ready@ + arrivals(woken, pre.current);
    // its pid is in neither part of the queue
    assert(!q.contains(p)) by {
        if q.contains(p) {
            let k = choose|k: int| 0 <= k < q.len() && q[k] == p;
            if k < pre.ready@.len() {
                assert(pre.state_of(pre.ready@[k]) is Ready);
            } else {
                lemma_arrivals_sub_pids(woken, pre.current);
                assert(arrivals(woken, pre.current).contains(p));
            }
        }
    }
    assert(p != c || !(pre.state_of(c) is Ready || pre.state_of(c) is Running));
    if q.len() == 0 {
        assert(pre.ready@.len() == 0);
    } else {
        let next = q[0];
        assert(next != p);
        assert(post.state_of(p) == pre.state_of(p));
    }
    // still blocked, so by well-formedness not in the queue, and pending
    assert(!post.ready@.contains(p)) by {
        if post.ready@.contains(p) {
            let k = choose|k: int| 0 <= k < post.ready@.len() && post.ready@[k] == p;
            assert(post.state_of(post.ready@[k]) is Ready);
        }
    }
    assert(post.current != Some(p)) by {
        if post.current == Some(p) {
            assert(post.state_of(p) is Blocked);
            let k = choose|k: int| 0 <= k < q.len() && q[k] == p;
        }
    }
    assert(post.sleep@.contains(e));
}

/// Every arrival is the pid of a woken entry.
proof fn lemma_arrivals_sub_pids(woken: Seq<SleepEntry>, current: Option<u8>)
    ensures
        forall|p: u8|
            #[trigger] arrivals(woken, current).contains(p) ==> pids_of(woken).contains(p),
    decreases woken.len(),
{
    if woken.len() > 0 {
        lemma_arrivals_sub_pids(woken.drop_last(), current);
        assert forall|p: u8|
            #[trigger] arrivals(woken, current).contains(p) implies pids_of(woken).contains(
            p,
        ) by {
            let a = arrivals(woken, current);
            let k = choose|k: int| 0 <= k < a.len() && a[k] == p;
            if Some(woken.last().pid) != current && k == a.len() - 1 {
                assert(pids_of(woken)[woken.len() - 1] == woken.last().pid);
            } else {
                assert(arrivals(woken.drop_last(), current).contains(p));
                let j = choose|j: int|
                    0 <= j < pids_of(woken.drop_last()).len() && pids_of(woken.drop_last())[j]
                        == p;
                assert(pids_of(woken)[j] == p);
            }
        }
    }
}

/// Yield idempotence: a yield with nothing else ready and no sleeper due
/// decides no switch — the same task keeps running and the kernel state is
/// unchanged in every observable part.
pub proof fn lemma_yield_singleton(
    pre: Kernel,
    post: Kernel,
    now_us: u64,
    live_sp: usize,
    r: Option<usize>,
)
    requires
        pre.wf(),
        pick_next_post(pre, post, now_us, live_sp, r),
        pre.current is Some,
        pre.ready@.len() == 0,
        forall|k: int| 0 <= k < pre.sleep@.len() ==> (#[trigger] pre.sleep@[k]).wake_time > now_us,
    ensures
        r is None,
        post.current == pre.current,
        post.ready@ == pre.ready@,
        post.sleep@.to_multiset() == pre.sleep@.to_multiset(),
        forall|p: u8|
            pre.created(p) ==> (#[trigger] post.state_of(p)) == pre.state_of(p)
                && post.pcb_of(p).sp == pre.pcb_of(p).sp,
{
    broadcast use vstd::seq_lib::group_to_multiset_ensures, vstd::multiset::group_multiset_axioms;

    let woken = choose|woken: Seq<SleepEntry>|
        #[trigger] pick_next_with(pre, post, now_us, live_sp, r, woken);
    assert(woken.len() == 0) by {
        if woken.len() > 0 {
            let we = woken[0];
            assert(woken.contains(we));
            assert(woken.to_multiset().count(we) > 0);
            assert(pre.sleep@.to_multiset().count(we) > 0);
            assert(pre.sleep@.contains(we));
            let j = choose|j: int| 0 <= j < pre.sleep@.len() && pre.sleep@[j] == we;
            assert(pre.sleep@[j].wake_time > now_us);
            assert(we.wake_time <= now_us);
        }
    }
    assert(woken =~= Seq::<SleepEntry>::empty());
    assert(arrivals(woken, pre.current) =~= Seq::<u8>::empty());
    let q = pre.ready@ + arrivals(woken, pre.current);
    assert(q.len() == 0);
    assert(post.ready@ =~= pre.ready@);
    lemma_to_multiset_empty::<SleepEntry>();
    assert(post.sleep@.to_multiset() =~= pre.sleep@.to_multiset());
    assert forall|p: u8|
        pre.created(p) implies (#[trigger] post.state_of(p)) == pre.state_of(p) && post.pcb_of(
        p,
    ).sp == pre.pcb_of(p).sp by {
        assert(!pids_of(woken).contains(p));
    }
}

/// The empty sequence carries the empty multiset.
proof fn lemma_to_multiset_empty<A>()
    ensures
        Seq::<A>::empty().to_multiset() == Multiset::<A>::empty(),
{
    assert forall|a: A| Seq::<A>::empty().to_multiset().count(a) == 0 by {
        assert(!Seq::<A>::empty().contains(a));
    }
    assert(Seq::<A>::empty().to_multiset() =~= Multiset::<A>::empty());
}

/// A sequence of distinct ids drawn from `0 .. n` has at most `n` entries.
pub proof fn lemma_distinct_bounded(s: Seq<u8>, n: int)
    requires
        s.no_duplicates(),
        0 <= n,
        forall|k: int| 0 <= k < s.len() ==> (#[trigger] s[k]) < n,
    ensures
        s.len() <= n,
{
    broadcast use vstd::set::group_set_axioms;

    let si = s.map_values(|p: u8| p as int);
    assert(si.no_duplicates()) by {
        assert forall|i: int, j: int| 0 <= i < j < si.len() implies si[i] != si[j] by {
            assert(s[i] != s[j]);
        }
    }
    si.unique_seq_to_set();
    assert(si.to_set().subset_of(vstd::set_lib::set_int_range(0, n))) by {
        assert forall|x: int| si.to_set().contains(x) implies vstd::set_lib::set_int_range(
            0,
            n,
        ).contains(x) by {
            let k = choose|k: int| 0 <= k < si.len() && si[k] == x;
            assert(s[k] < n);
        }
    }
    vstd::set_lib::lemma_int_range(0, n);
    vstd::set_lib::lemma_len_subset(si.to_set(), vstd::set_lib::set_int_range(0, n));
}

/// A sequence of distinct ids drawn from `0 .. n` that avoids one id of
/// that range has at most `n - 1` entries.
pub proof fn lemma_distinct_bounded_excluding(s: Seq<u8>, n: int, c: u8)
    requires
        s.no_duplicates(),
        0 <= n,
        forall|k: int| 0 <= k < s.len() ==> (#[trigger] s[k]) < n,
        !s.contains(c),
        (c as int) < n,
    ensures
        s.len() <= n - 1,
{
    broadcast use vstd::set::group_set_axioms;

    let si = s.map_values(|p: u8| p as int);
    assert(si.no_duplicates()) by {
        assert forall|i: int, j: int| 0 <= i < j < si.len() implies si[i] != si[j] by {
            assert(s[i] != s[j]);
        }
    }
    si.unique_seq_to_set();
    let range = vstd::set_lib::set_int_range(0, n);
    let avail = range.remove(c as int);
    assert(si.to_set().subset_of(avail)) by {
        assert forall|x: int| si.to_set().contains(x) implies avail.contains(x) by {
            let k = choose|k: int| 0 <= k < si.len() && si[k] == x;
            assert(s[k] < n);
            assert(s[k] != c);
        }
    }
    vstd::set_lib::lemma_int_range(0, n);
    assert(range.len() == avail.len() + 1);
    vstd::set_lib::lemma_len_subset(si.to_set(), avail);
}

} // verus!
