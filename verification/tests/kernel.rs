use rp2040_scheduler::layout::PROCESSES_START;
use rp2040_scheduler::process::loader::FRAME_BYTES;
use rp2040_scheduler::{BlockReason, Kernel, ProcessError, ProcessState, SchedulerError};

#[test]
fn create_assigns_sequential_pids() {
    let mut k = Kernel::new();
    assert_eq!(k.create_process(1024, 0x1000, 7).unwrap(), 0);
    assert_eq!(k.create_process(1024, 0x2000, 8).unwrap(), 1);
    assert_eq!(k.next_id, 2);
    assert_eq!(k.next_free, 2048);
    let p0 = k.procs[0].unwrap();
    assert_eq!(p0.pid, 0);
    assert!(matches!(p0.state, ProcessState::Ready));
    let p1 = k.procs[1].unwrap();
    assert_eq!(p1.stack_base, PROCESSES_START + 1024);
    assert!(k.procs[2].is_none());
}

#[test]
fn zero_size_stack_rejected() {
    let mut k = Kernel::new();
    let r = k.create_process(0, 0x1000, 0);
    assert_eq!(r, Err(ProcessError::InvalidSize));
    assert_eq!(k.next_free, 0);
    assert_eq!(k.next_id, 0);
}

#[test]
fn undersized_stack_rejected() {
    let mut k = Kernel::new();
    assert_eq!(k.create_process(71, 0x1000, 0), Err(ProcessError::InvalidSize));
    assert_eq!(k.next_free, 0);
    assert!(k.create_process(72, 0x1000, 0).is_ok());
}

#[test]
fn stack_pointer_stays_inside_stack() {
    let mut k = Kernel::new();
    // deliberately odd sizes so alignment slack comes into play
    for size in [72usize, 100, 131, 1024, 4097] {
        let pid = k.create_process(size, 0x1000, 0).unwrap();
        let pcb = k.procs[pid as usize].unwrap();
        assert!(pcb.stack_base <= pcb.sp);
        assert!(pcb.sp + FRAME_BYTES <= pcb.stack_base + pcb.stack_size);
        assert_eq!(pcb.sp % 8, 0);
        assert!(pcb.stack_base >= PROCESSES_START);
    }
}

#[test]
fn ready_queue_saturation() {
    let mut k = Kernel::new();
    for i in 0..256u32 {
        assert_eq!(k.create_process(128, 0x1000, 0).unwrap(), i as u8);
    }
    // the 257th creation trips the table/queue limit
    assert_eq!(k.create_process(128, 0x1000, 0), Err(ProcessError::NoSpace));
    // existing processes continue unaffected
    assert_eq!(k.next_id, 256);
    assert!(k.procs[255].is_some());
    assert_eq!(k.ready.len(), 256);
}

#[test]
fn arena_exhaustion_is_no_memory() {
    let mut k = Kernel::new();
    assert!(k.create_process(65536, 0x1000, 0).is_ok());
    assert!(k.create_process(65536, 0x1000, 0).is_ok());
    assert_eq!(k.create_process(65536, 0x1000, 0), Err(ProcessError::NoMemory));
    assert_eq!(k.next_free, 131072);
    assert_eq!(k.next_id, 2);
}

#[test]
fn start_first_process_runs_the_first_created() {
    let mut k = Kernel::new();
    assert_eq!(k.start_first_process(), Err(SchedulerError::Empty));
    k.create_process(1024, 0x1000, 0).unwrap();
    k.create_process(1024, 0x2000, 0).unwrap();
    let sp0 = k.procs[0].unwrap().sp;
    assert_eq!(k.start_first_process(), Ok(sp0));
    assert_eq!(k.current(), Some(0));
    assert!(matches!(k.procs[0].unwrap().state, ProcessState::Running));
    assert_eq!(k.ready.len(), 1);
}

#[test]
fn pick_before_start_is_no_switch() {
    let mut k = Kernel::new();
    k.create_process(1024, 0x1000, 0).unwrap();
    assert_eq!(k.pick_next(0, 0), None);
    assert_eq!(k.current(), None);
}

#[test]
fn yield_singleton_keeps_current() {
    let mut k = Kernel::new();
    k.create_process(1024, 0x1000, 0).unwrap();
    k.start_first_process().unwrap();
    let sp = k.procs[0].unwrap().sp;
    for i in 0..1000u64 {
        let r = k.pick_next(i, sp);
        assert_eq!(r, None);
        assert_eq!(k.current, Some(0));
    }
    assert!(matches!(k.procs[0].unwrap().state, ProcessState::Running));
    assert_eq!(k.procs[0].unwrap().sp, sp);
}

#[test]
fn round_robin_alternates_two_tasks() {
    let mut k = Kernel::new();
    k.create_process(1024, 0x1000, 0).unwrap();
    k.create_process(1024, 0x2000, 0).unwrap();
    k.start_first_process().unwrap();
    let mut now = 0u64;
    let mut expected = 0u8;
    for _ in 0..20 {
        assert_eq!(k.current, Some(expected));
        let cur = k.current.unwrap();
        let live_sp = k.procs[cur as usize].unwrap().sp;
        let other = 1 - expected;
        let other_sp = k.procs[other as usize].unwrap().sp;
        now += 10_000;
        let r = k.pick_next(now, live_sp);
        assert_eq!(r, Some(other_sp));
        expected = other;
    }
}

#[test]
fn every_task_runs_within_a_full_rotation() {
    let mut k = Kernel::new();
    for i in 0..4u32 {
        k.create_process(1024, 0x1000 + i, 0).unwrap();
    }
    k.start_first_process().unwrap();
    let mut now = 0u64;
    let mut ran = [false; 4];
    ran[k.current.unwrap() as usize] = true;
    // four tasks: within four decisions each task has been current once
    for _ in 0..4 {
        let cur = k.current.unwrap() as usize;
        let live_sp = k.procs[cur].unwrap().sp;
        now += 10_000;
        k.pick_next(now, live_sp).unwrap();
        ran[k.current.unwrap() as usize] = true;
    }
    assert_eq!(ran, [true; 4]);
    // and the rotation is the strict round-robin order
    assert_eq!(k.current, Some(0));
}

#[test]
fn sleep_before_start_is_no_current() {
    let mut k = Kernel::new();
    assert_eq!(k.sleep_ms(0, 10), Err(SchedulerError::NoCurrent));
}

#[test]
fn sleep_blocks_until_due() {
    let mut k = Kernel::new();
    k.create_process(1024, 0x1000, 0).unwrap();
    k.create_process(1024, 0x2000, 0).unwrap();
    k.start_first_process().unwrap();

    let t0 = 1_000u64;
    assert_eq!(k.sleep_ms(t0, 50), Ok(()));
    let wake = t0 + 50 * 1000;
    assert!(matches!(
        k.procs[0].unwrap().state,
        ProcessState::Blocked(BlockReason::Sleeping(w)) if w == wake
    ));
    assert_eq!(k.sleep.get_size(), 1);

    // the pended yield switches to the other task
    let sp0 = k.procs[0].unwrap().sp;
    assert!(k.pick_next(t0, sp0).is_some());
    assert_eq!(k.current, Some(1));

    // no tick before the wake time ever runs the sleeper
    for now in [11_000u64, 21_000, 31_000, 41_000, 50_999] {
        let sp1 = k.procs[1].unwrap().sp;
        assert_eq!(k.pick_next(now, sp1), None);
        assert_eq!(k.current, Some(1));
        assert!(matches!(k.procs[0].unwrap().state, ProcessState::Blocked(_)));
    }

    // the first tick at or after the wake time re-admits it
    let sp1 = k.procs[1].unwrap().sp;
    let r = k.pick_next(wake, sp1);
    assert!(r.is_some());
    assert_eq!(k.current, Some(0));
    assert_eq!(k.sleep.get_size(), 0);
    // observed wake-up time honours the lower bound, within one quantum
    assert!(wake - t0 >= 50_000);
    assert!(wake - t0 < 50_000 + 2 * 10_000);
}

#[test]
fn single_sleeper_resumes_ready_after_wake_time() {
    let mut k = Kernel::new();
    k.create_process(1024, 0x1000, 0).unwrap();
    k.start_first_process().unwrap();
    let t0 = 0u64;
    k.sleep_ms(t0, 50).unwrap();
    let sp0 = k.procs[0].unwrap().sp;
    // nothing else to run: the kernel keeps resuming the only context
    assert_eq!(k.pick_next(10_000, sp0), None);
    assert_eq!(k.current, Some(0));
    assert!(matches!(k.procs[0].unwrap().state, ProcessState::Blocked(_)));
    // once due, the task is woken in place
    assert_eq!(k.pick_next(50_000, sp0), None);
    assert_eq!(k.current, Some(0));
    assert!(matches!(k.procs[0].unwrap().state, ProcessState::Ready));
    assert_eq!(k.sleep.get_size(), 0);
}

#[test]
fn pid_lives_in_one_place_at_a_time() {
    let mut k = Kernel::new();
    for i in 0..3u32 {
        k.create_process(1024, 0x1000 + i, 0).unwrap();
    }
    k.start_first_process().unwrap();
    // current 0 runs; 1 and 2 are ready
    assert_eq!(k.ready.len(), 2);
    assert_eq!(k.sleep.get_size(), 0);
    k.sleep_ms(100, 10).unwrap();
    // the sleeper is in the heap, not in the queue, still current until the switch
    assert_eq!(k.ready.len(), 2);
    assert_eq!(k.sleep.get_size(), 1);
    let sp0 = k.procs[0].unwrap().sp;
    k.pick_next(100, sp0).unwrap();
    assert_eq!(k.current, Some(1));
    assert_eq!(k.ready.len(), 1);
    assert_eq!(k.sleep.get_size(), 1);
}

#[test]
fn sleeping_tasks_wake_in_wake_time_order() {
    let mut k = Kernel::new();
    for i in 0..4u32 {
        k.create_process(1024, 0x1000 + i, 0).unwrap();
    }
    k.start_first_process().unwrap();
    // 0 sleeps 30 ms at t=0
    k.sleep_ms(0, 30).unwrap();
    k.pick_next(0, k.procs[0].unwrap().sp).unwrap();
    // 1 sleeps 10 ms
    assert_eq!(k.current, Some(1));
    k.sleep_ms(0, 10).unwrap();
    k.pick_next(0, k.procs[1].unwrap().sp).unwrap();
    // 2 sleeps 20 ms
    assert_eq!(k.current, Some(2));
    k.sleep_ms(0, 20).unwrap();
    k.pick_next(0, k.procs[2].unwrap().sp).unwrap();
    // only 3 is left running; all three wakeups are pending
    assert_eq!(k.current, Some(3));
    assert_eq!(k.sleep.get_size(), 3);
    // one late tick wakes all three at once, in wake-time order
    let r = k.pick_next(40_000, k.procs[3].unwrap().sp);
    assert!(r.is_some());
    assert_eq!(k.sleep.get_size(), 0);
    assert_eq!(k.current, Some(1));
    // the queue now rotates through them in that order
    k.pick_next(41_000, k.procs[1].unwrap().sp).unwrap();
    assert_eq!(k.current, Some(2));
    k.pick_next(42_000, k.procs[2].unwrap().sp).unwrap();
    assert_eq!(k.current, Some(0));
    k.pick_next(43_000, k.procs[0].unwrap().sp).unwrap();
    assert_eq!(k.current, Some(3));
}
