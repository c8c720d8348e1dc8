use rp2040_scheduler::layout::{PROCESSES_SIZE, PROCESSES_START, PROCESSES_WORDS};
use rp2040_scheduler::process::loader::{FRAME_BYTES, INITIAL_XPSR, RETURN_TRAP};
use rp2040_scheduler::{setup_initial_stack, Kernel, MemoryLayout};

#[test]
fn regions_tile_the_ram_bank() {
    let layout = MemoryLayout::new();
    assert_eq!(layout.kernel_data.start + layout.kernel_data.size, layout.processes.start);
    assert_eq!(layout.processes.start + layout.processes.size, layout.reserved.start);
    assert_eq!(layout.processes.start, PROCESSES_START);
    assert_eq!(layout.processes.size, PROCESSES_SIZE);
}

#[test]
fn initial_frame_is_a_preempt_image() {
    let mut mem = vec![0x5555_5555u32; PROCESSES_WORDS];
    let entry: u32 = 0x1000_0000;
    let arg: u32 = 0xDEAD_BEEF;
    // an unaligned base exercises the rounding of the stack top
    let base = PROCESSES_START + 100;
    let size = 1001usize;
    let sp = setup_initial_stack(&mut mem, base, size, entry, arg);

    assert_eq!(sp % 8, 0);
    assert!(base <= sp);
    assert!(sp + FRAME_BYTES <= base + size);

    // the image preemption would save for the seeded register file:
    // R4..R11 all zero, then R0 = arg, R1 = R2 = R3 = R12 = 0, LR = trap,
    // PC = entry with the Thumb bit, xPSR = reset status word
    let expected: [u32; 16] = [
        0, 0, 0, 0, 0, 0, 0, 0, arg, 0, 0, 0, 0, RETURN_TRAP, entry | 1, INITIAL_XPSR,
    ];
    let w = (sp - PROCESSES_START) / 4;
    for (i, word) in expected.iter().enumerate() {
        assert_eq!(mem[w + i], *word);
    }
    // nothing outside the 16 words was touched
    assert_eq!(mem[w - 1], 0x5555_5555);
    assert_eq!(mem[w + 16], 0x5555_5555);
}

#[test]
fn create_process_writes_the_frame() {
    let mut k = Kernel::new();
    let entry: u32 = 0x0040_2000;
    let arg: u32 = 0x2003_0000;
    let pid = k.create_process(1024, entry, arg).unwrap();
    let pcb = k.procs[pid as usize].unwrap();
    let w = (pcb.sp - PROCESSES_START) / 4;
    // callee-saved block R4..R11
    for i in 0..8 {
        assert_eq!(k.mem[w + i], 0);
    }
    // exception frame R0, R1, R2, R3, R12, LR, PC, xPSR
    assert_eq!(k.mem[w + 8], arg);
    assert_eq!(k.mem[w + 13], RETURN_TRAP);
    assert_eq!(k.mem[w + 14], entry | 1);
    assert_eq!(k.mem[w + 15], INITIAL_XPSR);
    // a second task's frame lands in its own stack
    let pid2 = k.create_process(1024, entry, 7).unwrap();
    let pcb2 = k.procs[pid2 as usize].unwrap();
    assert!(pcb2.stack_base >= pcb.stack_base + pcb.stack_size);
    let w2 = (pcb2.sp - PROCESSES_START) / 4;
    assert_eq!(k.mem[w2 + 8], 7);
    assert_eq!(k.mem[w + 8], arg);
}
