use rp2040_scheduler::{Scheduler, SchedulerError, SleepEntry, SleepQueue, RR};

#[test]
fn ready_queue_is_fifo() {
    let mut rr = RR::new();
    assert_eq!(rr.dequeue(0), Err(SchedulerError::Empty));
    rr.enqueue(3).unwrap();
    rr.enqueue(1).unwrap();
    rr.enqueue(2).unwrap();
    assert_eq!(rr.len(), 3);
    assert_eq!(rr.dequeue(0), Ok(3));
    assert_eq!(rr.dequeue(0), Ok(1));
    assert_eq!(rr.dequeue(0), Ok(2));
    assert_eq!(rr.dequeue(0), Err(SchedulerError::Empty));
}

#[test]
fn ready_queue_rejects_when_full() {
    let mut rr = RR::new();
    for i in 0..256u32 {
        rr.enqueue(i as u8).unwrap();
    }
    assert_eq!(rr.enqueue(0), Err(SchedulerError::NoSpace));
    assert_eq!(rr.dequeue(0), Ok(0));
    // one slot freed: the next enqueue fits again
    assert_eq!(rr.enqueue(77), Ok(()));
    assert_eq!(rr.enqueue(78), Err(SchedulerError::NoSpace));
}

#[test]
fn ready_queue_wraps_around() {
    let mut rr = RR::new();
    // drive head and tail several times around the ring
    for round in 0..300u32 {
        rr.enqueue((round % 251) as u8).unwrap();
        rr.enqueue(((round + 7) % 251) as u8).unwrap();
        assert_eq!(rr.dequeue(0), Ok((round % 251) as u8));
        assert_eq!(rr.dequeue(0), Ok(((round + 7) % 251) as u8));
    }
    assert_eq!(rr.len(), 0);
}

#[test]
fn heap_index_helpers() {
    let q = SleepQueue::new();
    assert_eq!(q.parent(1), 0);
    assert_eq!(q.parent(2), 0);
    assert_eq!(q.parent(5), 2);
    assert_eq!(q.parent(6), 2);
    assert_eq!(q.left_child(0), 1);
    assert_eq!(q.right_child(0), 2);
    assert_eq!(q.left_child(3), 7);
    assert_eq!(q.right_child(3), 8);
}

#[test]
fn sleeper_not_due_is_not_runnable() {
    let mut q = SleepQueue::new();
    assert_eq!(q.dequeue(0), Err(SchedulerError::Empty));
    q.enqueue(SleepEntry { pid: 9, wake_time: 100 }).unwrap();
    assert_eq!(q.dequeue(99), Err(SchedulerError::NotRunnable));
    assert_eq!(q.get_size(), 1);
    assert_eq!(q.dequeue(100), Ok(9));
    assert_eq!(q.get_size(), 0);
}

#[test]
fn extract_min_returns_the_earliest() {
    let mut q = SleepQueue::new();
    q.enqueue(SleepEntry { pid: 1, wake_time: 300 }).unwrap();
    q.enqueue(SleepEntry { pid: 2, wake_time: 100 }).unwrap();
    q.enqueue(SleepEntry { pid: 3, wake_time: 200 }).unwrap();
    let first = q.extract_min().unwrap();
    assert_eq!(first.pid, 2);
    assert_eq!(first.wake_time, 100);
    let second = q.extract_min().unwrap();
    assert_eq!(second.pid, 3);
    let third = q.extract_min().unwrap();
    assert_eq!(third.pid, 1);
    assert_eq!(q.extract_min(), Err(SchedulerError::Empty));
}

#[test]
fn heap_orders_sixteen_wakeups() {
    let wakes: [u64; 16] = [
        500, 100, 300, 200, 450, 50, 275, 325, 10, 480, 60, 90, 210, 220, 230, 40,
    ];
    let mut q = SleepQueue::new();
    for (i, wk) in wakes.iter().enumerate() {
        q.enqueue(SleepEntry { pid: i as u8, wake_time: *wk }).unwrap();
    }
    assert_eq!(q.get_size(), 16);
    // with the clock advanced past every wake time, the pids come out in
    // nondecreasing wake-time order
    let mut last = 0u64;
    for _ in 0..16 {
        let pid = q.dequeue(1_000).unwrap();
        let wk = wakes[pid as usize];
        assert!(wk >= last);
        last = wk;
    }
    assert_eq!(q.get_size(), 0);
    assert_eq!(q.dequeue(1_000), Err(SchedulerError::Empty));
}

#[test]
fn sleep_heap_rejects_when_full() {
    let mut q = SleepQueue::new();
    for i in 0..256u32 {
        q.enqueue(SleepEntry { pid: i as u8, wake_time: 1000 - i as u64 }).unwrap();
    }
    assert_eq!(
        q.enqueue(SleepEntry { pid: 0, wake_time: 0 }),
        Err(SchedulerError::NoSpace)
    );
}
