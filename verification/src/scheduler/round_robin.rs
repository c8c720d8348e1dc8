use crate::scheduler::{Scheduler, SchedulerError, MAX_PROCS};
use vstd::prelude::*;

verus! {

/// Round-robin ready queue: a bounded ring buffer of runnable task ids,
/// strict FIFO by enqueue time. Its view is the sequence of queued ids from
/// head to tail.
pub struct RR {
    queue: Vec<Option<u8>>,
    head: usize,
    tail: usize,
    size: usize,
}

/// Ring slot of the `k`-th occupied entry counting from `head`; the ring
/// wraps at `MAX_PROCS`. Stated without modulo so the arithmetic stays
/// linear.
pub open spec fn ring_slot(head: int, k: int) -> int {
    if head + k < MAX_PROCS {
        head + k
    } else {
        head + k - MAX_PROCS
    }
}

/// How far around the ring slot `j` lies from `head`.
pub open spec fn ring_offset(head: int, j: int) -> int {
    if j >= head {
        j - head
    } else {
        j - head + MAX_PROCS
    }
}

/// Whether ring slot `j` lies in the occupied window that starts at `head`
/// and holds `size` entries.
pub open spec fn in_window(head: int, size: int, j: int) -> bool {
    ring_offset(head, j) < size
}

impl View for RR {
    type V = Seq<u8>;

    closed spec fn view(&self) -> Seq<u8> {
        Seq::new(self.size as nat, |k: int| self.queue@[ring_slot(self.head as int, k)].unwrap())
    }
}

impl RR {
    /// Structural invariant of the ring buffer: the `size` slots starting at
    /// `head` are `Some`, all others are `None`, and `tail` is the first
    /// free slot.
    pub closed spec fn wf(self) -> bool {
        &&& self.queue@.len() == MAX_PROCS
        &&& self.head < MAX_PROCS
        &&& self.tail < MAX_PROCS
        &&& self.size <= MAX_PROCS
        &&& self.tail as int == ring_slot(self.head as int, self.size as int)
        &&& forall|j: int|
            0 <= j < MAX_PROCS ==> (self.queue@[j] is Some <==> in_window(
                self.head as int,
                self.size as int,
                j,
            ))
    }

    /// An empty ready queue.
    pub fn new() -> (rr: RR)
        ensures
            rr.wf(),
            rr@ == Seq::<u8>::empty(),
    {
        let mut queue: Vec<Option<u8>> = Vec::new();
        let mut i: usize = 0;
        while i < MAX_PROCS
            invariant
                i <= MAX_PROCS,
                queue@.len() == i,
                forall|j: int| 0 <= j < i ==> queue@[j] is None,
            decreases MAX_PROCS - i,
        {
            queue.push(None);
            i = i + 1;
        }
        let rr = RR { queue, head: 0, tail: 0, size: 0 };
        proof {
            assert(rr@ =~= Seq::<u8>::empty());
        }
        rr
    }

    /// Number of queued task ids.
    pub fn len(&self) -> (n: usize)
        ensures
            n == self@.len(),
    {
        self.size
    }
}

impl Scheduler<u8> for RR {
    open spec fn sched_inv(self) -> bool {
        self.wf()
    }

    /// Appends at the tail when there is room; full queues are left
    /// unchanged and reported as `NoSpace`.
    open spec fn enqueue_post(self, post: Self, entry: u8, r: Result<(), SchedulerError>) -> bool {
        if self@.len() == MAX_PROCS {
            r == Err::<(), SchedulerError>(SchedulerError::NoSpace) && post == self
        } else {
            r == Ok::<(), SchedulerError>(()) && post@ == self@.push(entry)
        }
    }

    /// Removes from the head when the queue is not empty; empty queues are
    /// left unchanged and reported as `Empty`. The clock is not consulted.
    open spec fn dequeue_post(self, post: Self, now_us: u64, r: Result<u8, SchedulerError>) -> bool {
        if self@.len() == 0 {
            r == Err::<u8, SchedulerError>(SchedulerError::Empty) && post == self
        } else {
            r == Ok::<u8, SchedulerError>(self@[0]) && post@ == self@.drop_first()
        }
    }

    fn enqueue(&mut self, entry: u8) -> (r: Result<(), SchedulerError>) {
        if self.size == MAX_PROCS {
            return Err(SchedulerError::NoSpace);
        }

        let ghost pre = *self;
        self.size = self.size + 1;
        self.queue.set(self.tail, Some(entry));
        self.tail = (self.tail + 1) % MAX_PROCS;

        proof {
            let head = pre.head as int;
            let size = pre.size as int;
            assert(self.queue@ == pre.queue@.update(pre.tail as int, Some(entry)));
            assert(self.tail as int == ring_slot(head, size + 1));
            assert(ring_offset(head, ring_slot(head, size)) == size);
            assert forall|j: int| 0 <= j < MAX_PROCS implies (self.queue@[j] is Some <==> in_window(
                head,
                size + 1,
                j,
            )) by {
                if j == pre.tail as int {
                    assert(self.queue@[j] is Some);
                    assert(ring_offset(head, j) == size);
                } else {
                    assert(self.queue@[j] == pre.queue@[j]);
                    assert(pre.queue@[j] is Some <==> in_window(head, size, j));
                    assert(ring_offset(head, j) != size);
                }
            }
            assert(self@ =~= pre@.push(entry)) by {
                assert forall|k: int| 0 <= k < size implies self@[k] == pre@[k] by {
                    assert(ring_slot(head, k) != pre.tail as int);
                }
                assert(ring_slot(head, size) == pre.tail as int);
            }
        }
        Ok(())
    }

    fn dequeue(&mut self, _now_us: u64) -> (r: Result<u8, SchedulerError>) {
        match self.queue[self.head] {
            Some(pid) => {
                proof {
                    assert(ring_offset(self.head as int, self.head as int) == 0);
                    assert(in_window(self.head as int, self.size as int, self.head as int));
                }
                let ghost pre = *self;
                self.queue.set(self.head, None);
                self.size = self.size - 1;
                self.head = (self.head + 1) % MAX_PROCS;

                proof {
                    let head = pre.head as int;
                    let size = pre.size as int;
                    assert(self.head as int == ring_slot(head, 1));
                    assert(self.queue@ == pre.queue@.update(head, None::<u8>));
                    assert forall|j: int| 0 <= j < MAX_PROCS implies (self.queue@[j] is Some
                        <==> in_window(self.head as int, size - 1, j)) by {
                        if j == head {
                            assert(self.queue@[j] is None);
                            assert(ring_offset(self.head as int, j) == MAX_PROCS - 1);
                        } else {
                            assert(self.queue@[j] == pre.queue@[j]);
                            assert(pre.queue@[j] is Some <==> in_window(head, size, j));
                            assert(ring_offset(self.head as int, j) == ring_offset(head, j) - 1);
                        }
                    }
                    assert(self.tail as int == ring_slot(self.head as int, size - 1));
                    assert(self@ =~= pre@.drop_first()) by {
                        assert forall|k: int| 0 <= k < size - 1 implies self@[k] == pre@[k + 1] by {
                            assert(ring_slot(self.head as int, k) == ring_slot(head, k + 1));
                            assert(ring_slot(head, k + 1) != head);
                        }
                    }
                    assert(pid == pre@[0]);
                }
                Ok(pid)
            }
            None => {
                proof {
                    assert(ring_offset(self.head as int, self.head as int) == 0);
                    assert(!(self.queue@[self.head as int] is Some));
                    assert(!in_window(self.head as int, self.size as int, self.head as int));
                    assert(self.size == 0);
                }
                Err(SchedulerError::Empty)
            }
        }
    }
}

} // verus!
