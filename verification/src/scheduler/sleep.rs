use crate::scheduler::{Scheduler, SchedulerError, MAX_PROCS};
use vstd::prelude::*;

verus! {

broadcast use vstd::seq_lib::group_to_multiset_ensures, vstd::multiset::group_multiset_axioms;

/// One pending wakeup: the sleeping task and the microsecond instant at
/// which it becomes due.
#[derive(Clone, Copy, Debug, PartialEq, Eq, Structural)]
pub struct SleepEntry {
    pub pid: u8,
    pub wake_time: u64,
}

/// Heap index of the parent of a non-root node.
pub open spec fn parent_index(i: int) -> int {
    (i - 1) / 2
}

/// Every non-root entry is due no earlier than its parent, so the root is
/// the next to wake.
pub open spec fn is_min_heap(s: Seq<SleepEntry>) -> bool {
    forall|j: int|
        1 <= j < s.len() ==> s[#[trigger] parent_index(j)].wake_time <= s[j].wake_time
}

/// Min-heap except that the edge from `i` up to its parent may be violated.
pub open spec fn heap_except_up(s: Seq<SleepEntry>, i: int) -> bool {
    forall|j: int|
        1 <= j < s.len() && j != i ==> s[#[trigger] parent_index(j)].wake_time <= s[j].wake_time
}

/// Min-heap except that the edges from the children of `i` up to `i` may be
/// violated.
pub open spec fn heap_except_down(s: Seq<SleepEntry>, i: int) -> bool {
    forall|j: int|
        1 <= j < s.len() && parent_index(j) != i ==> s[#[trigger] parent_index(j)].wake_time
            <= s[j].wake_time
}

/// The entry at `i` is no earlier than the parent of `i`, stated for the
/// children of `i`: the form both bubble loops need of the grandparent.
pub open spec fn above_children_of(s: Seq<SleepEntry>, i: int) -> bool {
    i > 0 ==> forall|j: int|
        1 <= j < s.len() && #[trigger] parent_index(j) == i ==> s[parent_index(i)].wake_time
            <= s[j].wake_time
}

/// The task ids carried by a sequence of sleep entries.
pub open spec fn pids_of(s: Seq<SleepEntry>) -> Seq<u8> {
    s.map_values(|e: SleepEntry| e.pid)
}

/// Bounded binary min-heap of pending wakeups, keyed on `wake_time`
/// ascending, ties broken by heap position with no stability guarantee. Its
/// view is the occupied prefix of the backing array in heap order.
pub struct SleepQueue {
    heap: Vec<SleepEntry>,
    size: usize,
}

impl View for SleepQueue {
    type V = Seq<SleepEntry>;

    closed spec fn view(&self) -> Seq<SleepEntry> {
        self.heap@.subrange(0, self.size as int)
    }
}

impl SleepQueue {
    /// The backing array is full-capacity and the occupied prefix is a
    /// min-heap.
    pub closed spec fn wf(self) -> bool {
        &&& self.heap@.len() == MAX_PROCS
        &&& self.size <= MAX_PROCS
        &&& is_min_heap(self@)
    }

    /// Backing array allocated, occupied prefix within it; what `bubble_up`
    /// and `bubble_down` need besides their heap-shape preconditions.
    pub closed spec fn capacity_ok(self) -> bool {
        &&& self.heap@.len() == MAX_PROCS
        &&& self.size <= MAX_PROCS
    }

    /// An empty sleep heap.
    pub fn new() -> (q: SleepQueue)
        ensures
            q.wf(),
            q@ == Seq::<SleepEntry>::empty(),
    {
        let mut heap: Vec<SleepEntry> = Vec::new();
        let mut i: usize = 0;
        while i < MAX_PROCS
            invariant
                i <= MAX_PROCS,
                heap@.len() == i,
            decreases MAX_PROCS - i,
        {
            heap.push(SleepEntry { pid: 0, wake_time: u64::MAX });
            i = i + 1;
        }
        let q = SleepQueue { heap, size: 0 };
        proof {
            assert(q@ =~= Seq::<SleepEntry>::empty());
        }
        q
    }

    /// Exposes the shape invariant: the occupied prefix is a min-heap in
    /// `wake_time` (every non-root entry is due no earlier than its parent).
    pub proof fn lemma_min_heap(self)
        requires
            self.wf(),
        ensures
            is_min_heap(self@),
    {
    }

    /// In a min-heap the root is due no later than every entry.
    pub proof fn lemma_root_min(self)
        requires
            self.wf(),
            self@.len() > 0,
        ensures
            forall|k: int|
                0 <= k < self@.len() ==> self@[0].wake_time <= (#[trigger] self@[k]).wake_time,
    {
        assert forall|k: int| 0 <= k < self@.len() implies self@[0].wake_time <= (
        #[trigger] self@[k]).wake_time by {
            lemma_root_le(self@, k);
        }
    }

    /// Heap index of the parent of the non-root node `idx`.
    pub fn parent(&self, idx: usize) -> (r: usize)
        requires
            1 <= idx,
        ensures
            r as int == parent_index(idx as int),
    {
        (idx - 1) / 2
    }

    /// Heap index of the left child of `idx`.
    pub fn left_child(&self, idx: usize) -> (r: usize)
        requires
            idx < MAX_PROCS,
        ensures
            r == 2 * idx + 1,
    {
        2 * idx + 1
    }

    /// Heap index of the right child of `idx`.
    pub fn right_child(&self, idx: usize) -> (r: usize)
        requires
            idx < MAX_PROCS,
        ensures
            r == 2 * idx + 2,
    {
        2 * idx + 2
    }

    /// Number of pending wakeups.
    pub fn get_size(&self) -> (n: usize)
        requires
            self.wf(),
        ensures
            n == self@.len(),
    {
        proof {
            assert(self@.len() == self.size);
        }
        self.size
    }

    /// Swaps two occupied heap slots; the contents as a multiset, and the
    /// task ids as a multiset, are unchanged.
    fn swap_slots(&mut self, i: usize, j: usize)
        requires
            old(self).capacity_ok(),
            (i as int) < old(self)@.len(),
            (j as int) < old(self)@.len(),
        ensures
            final(self).capacity_ok(),
            final(self)@ == old(self)@.update(i as int, old(self)@[j as int]).update(
                j as int,
                old(self)@[i as int],
            ),
            final(self)@.to_multiset() == old(self)@.to_multiset(),
            pids_of(final(self)@).to_multiset() == pids_of(old(self)@).to_multiset(),
    {
        let ghost s = self@;
        let a = self.heap[i];
        let b = self.heap[j];
        self.heap.set(i, b);
        self.heap.set(j, a);
        proof {
            let t = self@;
            assert(t =~= s.update(i as int, s[j as int]).update(j as int, s[i as int]));
            if i == j {
                assert(t =~= s);
                assert(pids_of(t) =~= pids_of(s));
            } else {
                assert(s.contains(s[i as int]));
                assert(t.to_multiset() =~= s.to_multiset());
                assert(pids_of(t) =~= pids_of(s).update(i as int, s[j as int].pid).update(
                    j as int,
                    s[i as int].pid,
                ));
                assert(pids_of(s).contains(pids_of(s)[i as int]));
                assert(pids_of(t).to_multiset() =~= pids_of(s).to_multiset());
            }
        }
    }

    /// Restores the heap shape after the entry at `idx` was replaced by a
    /// possibly earlier one: repeatedly swaps it with its parent while the
    /// parent is due later.
    pub fn bubble_up(&mut self, idx: usize)
        requires
            old(self).capacity_ok(),
            (idx as int) < old(self)@.len(),
            heap_except_up(old(self)@, idx as int),
            above_children_of(old(self)@, idx as int),
        ensures
            final(self).capacity_ok(),
            final(self)@.len() == old(self)@.len(),
            is_min_heap(final(self)@),
            final(self)@.to_multiset() == old(self)@.to_multiset(),
            pids_of(final(self)@).to_multiset() == pids_of(old(self)@).to_multiset(),
    {
        let mut i = idx;
        while i > 0
            invariant_except_break
                self.capacity_ok(),
                (i as int) < self@.len(),
                self@.len() == old(self)@.len(),
                heap_except_up(self@, i as int),
                above_children_of(self@, i as int),
                self@.to_multiset() == old(self)@.to_multiset(),
                pids_of(self@).to_multiset() == pids_of(old(self)@).to_multiset(),
            ensures
                self.capacity_ok(),
                self@.len() == old(self)@.len(),
                is_min_heap(self@),
                self@.to_multiset() == old(self)@.to_multiset(),
                pids_of(self@).to_multiset() == pids_of(old(self)@).to_multiset(),
            decreases i,
        {
            let parent_idx = self.parent(i);
            let parent_entry = self.heap[parent_idx];
            let child_entry = self.heap[i];

            if parent_entry.wake_time > child_entry.wake_time {
                self.swap_slots(parent_idx, i);
                i = parent_idx;
            } else {
                // Heap satisfied.
                break ;
            }
        }
    }

    /// Restores the heap shape after the entry at `i` was replaced by a
    /// possibly later one: repeatedly swaps it with its earliest child while
    /// some child is due earlier.
    pub fn bubble_down(&mut self, i: usize)
        requires
            old(self).capacity_ok(),
            old(self)@.len() > 0 ==> (i as int) < old(self)@.len(),
            old(self)@.len() == 0 ==> i == 0,
            heap_except_down(old(self)@, i as int),
            above_children_of(old(self)@, i as int),
        ensures
            final(self).capacity_ok(),
            final(self)@.len() == old(self)@.len(),
            is_min_heap(final(self)@),
            final(self)@.to_multiset() == old(self)@.to_multiset(),
            pids_of(final(self)@).to_multiset() == pids_of(old(self)@).to_multiset(),
    {
        let mut i = i;
        loop
            invariant_except_break
                self.capacity_ok(),
                self@.len() == old(self)@.len(),
                self@.len() > 0 ==> (i as int) < self@.len(),
                self@.len() == 0 ==> i == 0,
                heap_except_down(self@, i as int),
                above_children_of(self@, i as int),
                self@.to_multiset() == old(self)@.to_multiset(),
                pids_of(self@).to_multiset() == pids_of(old(self)@).to_multiset(),
            ensures
                self.capacity_ok(),
                self@.len() == old(self)@.len(),
                is_min_heap(self@),
                self@.to_multiset() == old(self)@.to_multiset(),
                pids_of(self@).to_multiset() == pids_of(old(self)@).to_multiset(),
            decreases self@.len() - i,
        {
            let ghost s = self@;
            let ghost ii = i as int;
            let left_idx = self.left_child(i);
            let right_idx = self.right_child(i);
            let mut smallest = i;

            // Check whether the left child exists and is smaller.
            if left_idx < self.size && self.heap[left_idx].wake_time
                < self.heap[smallest].wake_time {
                smallest = left_idx;
            }
            // Check whether the right child exists and is smaller.
            if right_idx < self.size && self.heap[right_idx].wake_time
                < self.heap[smallest].wake_time {
                smallest = right_idx;
            }
            // If the current entry is smallest, the heap shape holds.
            if smallest == i {
                proof {
                    assert forall|j: int|
                        1 <= j < s.len() implies s[#[trigger] parent_index(j)].wake_time
                        <= s[j].wake_time by {
                        if parent_index(j) == ii {
                            assert(j == 2 * ii + 1 || j == 2 * ii + 2);
                        }
                    }
                }
                break ;
            }

            self.swap_slots(i, smallest);

            proof {
                let n = s.len() as int;
                let sm = smallest as int;
                let t = self@;
                assert(parent_index(2 * ii + 1) == ii);
                assert(parent_index(2 * ii + 2) == ii);
                assert(parent_index(sm) == ii);
                assert(t == s.update(ii, s[sm]).update(sm, s[ii]));
                assert forall|j: int|
                    1 <= j < n && parent_index(j) != sm implies t[
                    #[trigger] parent_index(j)].wake_time <= t[j].wake_time by {
                    assert(0 <= parent_index(j) < j);
                    if j == sm {
                        assert(t[ii] == s[sm] && t[sm] == s[ii]);
                    } else if j == ii {
                        assert(parent_index(j) != ii && parent_index(j) != sm);
                        assert(s[parent_index(ii)].wake_time <= s[sm].wake_time);
                    } else if parent_index(j) == ii {
                        assert(j == 2 * ii + 1 || j == 2 * ii + 2);
                        assert(t[j] == s[j]);
                        assert(s[sm].wake_time <= s[j].wake_time);
                    } else {
                        assert(t[j] == s[j] && t[parent_index(j)] == s[parent_index(j)]);
                    }
                }
                assert(heap_except_down(t, sm));
                assert forall|j: int|
                    1 <= j < n && #[trigger] parent_index(j) == sm implies t[parent_index(
                        sm,
                    )].wake_time <= t[j].wake_time by {
                    assert(2 * sm + 1 <= j <= 2 * sm + 2);
                    assert(t[j] == s[j]);
                    assert(s[parent_index(j)].wake_time <= s[j].wake_time);
                    assert(t[parent_index(sm)] == t[ii]);
                    assert(t[ii] == s[sm]);
                }
                assert(above_children_of(t, sm));
            }

            i = smallest;
        }
    }

    /// Removes and returns the earliest pending wakeup; `Empty` when there
    /// is none.
    pub fn extract_min(&mut self) -> (r: Result<SleepEntry, SchedulerError>)
        requires
            old(self).wf(),
        ensures
            final(self).wf(),
            old(self)@.len() == 0 ==> r == Err::<SleepEntry, SchedulerError>(SchedulerError::Empty)
                && *final(self) == *old(self),
            old(self)@.len() > 0 ==> r == Ok::<SleepEntry, SchedulerError>(old(self)@[0])
                && final(self)@.len() == old(self)@.len() - 1
                && final(self)@.to_multiset() == old(self)@.to_multiset().remove(old(self)@[0])
                && pids_of(final(self)@).to_multiset() == pids_of(old(self)@).to_multiset().remove(
                old(self)@[0].pid,
            ),
    {
        if self.size == 0 {
            return Err(SchedulerError::Empty);
        }
        let ghost s = self@;
        let min_node = self.heap[0];

        self.size = self.size - 1;
        let last_entry = self.heap[self.size];
        self.heap.set(0, last_entry);

        proof {
            let n = s.len() as int;
            let t = self@;
            if n == 1 {
                assert(t =~= s.remove(0));
                assert(s.remove(0).to_multiset() == s.to_multiset().remove(s[0]));
                assert(pids_of(t) =~= pids_of(s).remove(0));
                assert(pids_of(s).remove(0).to_multiset() == pids_of(s).to_multiset().remove(
                    pids_of(s)[0],
                ));
            } else {
                let u = s.update(0, s[n - 1]);
                assert(t =~= u.remove(n - 1));
                assert(s.contains(s[0]));
                assert(s.to_multiset().count(s[0]) > 0);
                assert(u[n - 1] == s[n - 1]);
                assert(u.to_multiset() == s.to_multiset().insert(s[n - 1]).remove(s[0]));
                assert(t.to_multiset() == u.remove(n - 1).to_multiset());
                assert(u.remove(n - 1).to_multiset() == u.to_multiset().remove(s[n - 1]));
                assert(t.to_multiset() =~= s.to_multiset().remove(s[0]));

                let p = pids_of(s);
                let q = pids_of(u);
                assert(q =~= p.update(0, s[n - 1].pid));
                assert(q.to_multiset() == p.to_multiset().insert(s[n - 1].pid).remove(p[0]));
                assert(pids_of(t) =~= q.remove(n - 1));
                assert(q[n - 1] == s[n - 1].pid);
                assert(q.remove(n - 1).to_multiset() == q.to_multiset().remove(s[n - 1].pid));
                assert(p.contains(p[0]));
                assert(p.to_multiset().count(p[0]) > 0);
                assert(pids_of(t).to_multiset() =~= p.to_multiset().remove(p[0]));
            }
            assert(pids_of(s)[0] == s[0].pid);
            assert(heap_except_down(t, 0));
        }

        self.bubble_down(0);

        Ok(min_node)
    }
}

/// The root of a min-heap is due no later than the entry at `k`.
proof fn lemma_root_le(s: Seq<SleepEntry>, k: int)
    requires
        is_min_heap(s),
        0 <= k < s.len(),
    ensures
        s[0].wake_time <= s[k].wake_time,
    decreases k,
{
    if k > 0 {
        lemma_root_le(s, parent_index(k));
    }
}

impl Scheduler<SleepEntry> for SleepQueue {
    open spec fn sched_inv(self) -> bool {
        self.wf()
    }

    /// Inserts when there is room, keeping the heap shape; full heaps are
    /// left unchanged and reported as `NoSpace`. Where the new entry lands
    /// among equal wake times is not specified, so the contract speaks of
    /// the contents as a multiset.
    open spec fn enqueue_post(
        self,
        post: Self,
        entry: SleepEntry,
        r: Result<(), SchedulerError>,
    ) -> bool {
        if self@.len() == MAX_PROCS {
            r == Err::<(), SchedulerError>(SchedulerError::NoSpace) && post == self
        } else {
            &&& r == Ok::<(), SchedulerError>(())
            &&& post@.len() == self@.len() + 1
            &&& post@.to_multiset() == self@.to_multiset().insert(entry)
            &&& pids_of(post@).to_multiset() == pids_of(self@).to_multiset().insert(entry.pid)
        }
    }

    /// Extracts the root when it is due at `now_us`; an empty heap reports
    /// `Empty`, a heap whose earliest wakeup is still in the future reports
    /// `NotRunnable` and is left unchanged.
    open spec fn dequeue_post(self, post: Self, now_us: u64, r: Result<u8, SchedulerError>) -> bool {
        if self@.len() == 0 {
            r == Err::<u8, SchedulerError>(SchedulerError::Empty) && post == self
        } else if self@[0].wake_time > now_us {
            r == Err::<u8, SchedulerError>(SchedulerError::NotRunnable) && post == self
        } else {
            &&& r == Ok::<u8, SchedulerError>(self@[0].pid)
            &&& self@[0].wake_time <= now_us
            &&& post@.len() == self@.len() - 1
            &&& post@.to_multiset() == self@.to_multiset().remove(self@[0])
            &&& pids_of(post@).to_multiset() == pids_of(self@).to_multiset().remove(self@[0].pid)
        }
    }

    fn enqueue(&mut self, entry: SleepEntry) -> (r: Result<(), SchedulerError>) {
        if self.size == MAX_PROCS {
            return Err(SchedulerError::NoSpace);
        }

        let ghost s = self@;
        // Heap insertion: `size` is the first free slot.
        let last_idx = self.size;
        self.heap.set(last_idx, entry);
        self.size = self.size + 1;

        proof {
            let t = self@;
            assert(t =~= s.push(entry));
            assert(pids_of(t) =~= pids_of(s).push(entry.pid));
            assert(heap_except_up(t, last_idx as int));
            assert(above_children_of(t, last_idx as int));
        }

        self.bubble_up(last_idx);

        Ok(())
    }

    fn dequeue(&mut self, now_us: u64) -> (r: Result<u8, SchedulerError>) {
        if self.size == 0 {
            return Err(SchedulerError::Empty);
        }

        if self.heap[0].wake_time > now_us {
            return Err(SchedulerError::NotRunnable);
        }

        match self.extract_min() {
            Ok(entry) => Ok(entry.pid),
            Err(e) => Err(e),
        }
    }
}

} // verus!
