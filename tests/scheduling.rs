use channel_os::addr::PhysAddr;
use channel_os::frame::FrameAllocator;
use channel_os::kernel::{Kernel, KernelError, SyscallOutcome, TrapOutcome};
use channel_os::physmem::PhysMem;
use channel_os::process::Process;
use channel_os::sched::Sched;
use channel_os::serial::UART16550;
use channel_os::service::PutcharQueue;
use channel_os::set::KernelLayout;
use channel_os::timer::{now, rearm, SLICE, TIMEBASE};
use channel_os::trap::{decode_syscall, trap_cause, Syscall, TrapCause, TrapFrame};

fn layout() -> KernelLayout {
    KernelLayout {
        text_start: 0x87f0_0000,
        text_end: 0x87f0_2000,
        ro_start: 0x87f0_2000,
        ro_end: 0x87f0_3000,
        rw_start: 0x87f0_3000,
        rw_end: 0x87f0_4000,
        kernel_end: 0x87f0_4000,
        text_vdso_start: 0x87f0_1000,
        text_vdso_end: 0x87f0_1800,
    }
}

fn allocator() -> FrameAllocator {
    FrameAllocator::new(PhysAddr(0x8100_0000), PhysAddr(0x8200_0000))
}

fn kernel_process(fa: &mut FrameAllocator, mem: &mut PhysMem, entry: u64) -> Process {
    Process::new_kernel(entry, [0, 0], fa, mem, &layout(), 0, 0).unwrap()
}

#[test]
fn scheduler_round_robin() {
    let mut fa = allocator();
    let mut mem = PhysMem::new();
    let mut s = Sched::new();
    let p1 = s.push(kernel_process(&mut fa, &mut mem, 0x1000));
    let p2 = s.push(kernel_process(&mut fa, &mut mem, 0x2000));
    let p3 = s.push(kernel_process(&mut fa, &mut mem, 0x3000));
    assert_eq!((p1, p2, p3), (1, 2, 3));
    let (_, mut tf) = s.bootstrap().unwrap();
    assert_eq!(s.running_id(), 1);
    assert_eq!(tf.sepc, 0x1000);
    let mut seen = vec![s.running_id()];
    for _ in 0..7 {
        assert!(s.tick(true, &mut tf).is_some());
        seen.push(s.running_id());
    }
    assert_eq!(seen, vec![1, 2, 3, 1, 2, 3, 1, 2]);
}

#[test]
fn tick_saves_and_restores_frames() {
    let mut fa = allocator();
    let mut mem = PhysMem::new();
    let mut s = Sched::new();
    s.push(kernel_process(&mut fa, &mut mem, 0x1000));
    s.push(kernel_process(&mut fa, &mut mem, 0x2000));
    let (_, mut tf) = s.bootstrap().unwrap();
    tf.sepc = 0x1234;
    let root = s.tick(true, &mut tf).unwrap();
    assert_eq!(tf.sepc, 0x2000);
    assert_eq!(Some(root), s.running_process().map(|p| p.mset.table.ppn()));
    s.tick(true, &mut tf);
    assert_eq!(tf.sepc, 0x1234);
}

#[test]
fn tick_before_bootstrap_does_nothing() {
    let mut fa = allocator();
    let mut mem = PhysMem::new();
    let mut s = Sched::new();
    s.push(kernel_process(&mut fa, &mut mem, 0x1000));
    let mut tf = TrapFrame::with_process(true, 0x42, 0, 0, 0);
    assert!(s.tick(true, &mut tf).is_none());
    assert_eq!(tf.sepc, 0x42);
    assert_eq!(s.running_id(), 0);
    assert!(s.running_process().is_none());
}

#[test]
fn voluntary_tick_with_nothing_ready_keeps_running() {
    let mut fa = allocator();
    let mut mem = PhysMem::new();
    let mut s = Sched::new();
    s.push(kernel_process(&mut fa, &mut mem, 0x1000));
    let (_, mut tf) = s.bootstrap().unwrap();
    assert!(s.tick(false, &mut tf).is_none());
    assert_eq!(s.running_id(), 1);
    assert!(Sched::new().bootstrap().is_none());
}

#[test]
fn service_ring_mono_counter() {
    let mut q = PutcharQueue::new();
    let mut consumed = Vec::new();
    let msg = b"Hi\n";
    for &c in msg {
        assert!(q.produce(c as u64));
    }
    assert_eq!((q.trans(), q.recv()), (3, 0));
    while let Some(c) = q.consume() {
        consumed.push(c as u8);
        assert!(q.trans() >= q.recv());
    }
    assert_eq!(consumed, msg.to_vec());
    assert_eq!(q.consume(), None);
}

#[test]
fn service_ring_full() {
    let mut q = PutcharQueue::new();
    for i in 0..255u64 {
        assert!(q.produce(i));
    }
    assert!(!q.produce(999));
    assert_eq!(q.consume(), Some(0));
    assert!(q.produce(255));
    let mut rest = Vec::new();
    while let Some(c) = q.consume() {
        rest.push(c);
    }
    assert_eq!(rest, (1..256).collect::<Vec<u64>>());
}

#[test]
fn trap_causes() {
    assert_eq!(trap_cause(0x8000_0000_0000_0005), TrapCause::SupervisorTimer);
    assert_eq!(trap_cause(8), TrapCause::UserEnvCall);
    assert_eq!(trap_cause(13), TrapCause::Other(false, 13));
    assert_eq!(trap_cause(0x8000_0000_0000_0009), TrapCause::Other(true, 9));
}

#[test]
fn syscall_decoding() {
    let mut tf = TrapFrame::with_process(true, 0, 0, 0, 0);
    tf.set_args(0x100, 0x1_48);
    assert_eq!(decode_syscall(&tf), Syscall::Putchar(0x48));
    tf.set_args(3, 0);
    assert_eq!(decode_syscall(&tf), Syscall::RequestService(0));
    tf.set_args(0x200, 5);
    assert_eq!(decode_syscall(&tf), Syscall::Unknown(0x200));
}

#[test]
fn trap_frame_start_state() {
    let tf = TrapFrame::with_process(true, 0x10000, 0x8000_0000, 0x122, 0x8);
    assert_eq!(tf.sstatus, 0x22);
    assert_eq!(tf.x[2], 0x8000_0000);
    assert_eq!(tf.x[1], 0);
    let k = TrapFrame::with_process(false, 0x10000, 0x8000_0000, 0, 0);
    assert_eq!(k.sstatus, 0x120);
}

fn empty_kernel() -> Kernel {
    Kernel::new(allocator(), PhysMem::new(), layout(), vec![], vec![])
}

#[test]
fn invalid_syscall() {
    let mut k = empty_kernel();
    let mut tf = TrapFrame::with_process(true, 0x10000, 0x8000_0000, 0, 8);
    tf.set_args(0x200, 77);
    let before = tf;
    let r = k.syscall(&mut tf, 0, 8);
    assert_eq!(r, Ok(SyscallOutcome::Ignored));
    assert_eq!(tf.sepc, before.sepc + 4);
    assert_eq!(tf.x, before.x);
}

#[test]
fn putchar_syscall() {
    let mut k = empty_kernel();
    let mut tf = TrapFrame::with_process(true, 0x10000, 0, 0, 8);
    tf.set_args(0x100, b'H' as u64);
    assert_eq!(k.syscall(&mut tf, 0, 8), Ok(SyscallOutcome::Print(b'H')));
    assert_eq!(tf.sepc, 0x10004);
}

#[test]
fn request_invalid_service() {
    let mut k = empty_kernel();
    let mut tf = TrapFrame::with_process(true, 0x10000, 0, 0, 8);
    tf.set_args(3, 0);
    assert_eq!(k.syscall(&mut tf, 0, 8), Err(KernelError::InvalidService(0)));
    assert_eq!(tf.sepc, 0x10000);
}

#[test]
fn unhandled_trap() {
    let mut k = empty_kernel();
    let mut tf = TrapFrame::with_process(true, 0x10000, 0, 0, 13);
    tf.stval = 0xbad;
    assert_eq!(k.trap(&mut tf, 0, 0), Err(KernelError::UnhandledTrap(false, 13, 0x10000, 0xbad)));
}

#[test]
fn timer_trap_rotates() {
    let mut fa = allocator();
    let mut mem = PhysMem::new();
    let a = kernel_process(&mut fa, &mut mem, 0x1000);
    let b = kernel_process(&mut fa, &mut mem, 0x2000);
    let mut k = Kernel::new(fa, mem, layout(), vec![], vec![]);
    k.sched.push(a);
    k.sched.push(b);
    let (_, mut tf) = k.bootstrap().unwrap();
    tf.scause = 0x8000_0000_0000_0005;
    match k.trap(&mut tf, 100, 0) {
        Ok(TrapOutcome::Timer(deadline, Some(_))) => assert_eq!(deadline, 100 + SLICE),
        other => panic!("unexpected {:?}", other),
    }
    assert_eq!(k.sched.running_id(), 2);
    assert_eq!(tf.sepc, 0x2000);
}

#[test]
fn request_service_with_bad_image_fails() {
    let l = layout();
    let mut fa = allocator();
    let mut mem = PhysMem::new();
    let caller = kernel_process(&mut fa, &mut mem, 0x1000);
    // The helper image is loaded as a user process; an invalid one fails the load.
    let mut k = Kernel::new(fa, mem, l, vec![], vec![b"no image".to_vec()]);
    k.sched.push(caller);
    let (_, mut tf) = k.bootstrap().unwrap();
    tf.set_args(3, 0);
    assert!(matches!(k.syscall(&mut tf, 0, 8), Err(KernelError::Load(_))));
    assert_eq!(tf.sepc, 0x1000);
    assert_eq!((tf.x[10], tf.x[11]), (3, 0));
}

#[test]
fn timer_arithmetic() {
    assert_eq!(SLICE, 100_000);
    assert_eq!(rearm(5), 100_005);
    assert_eq!(rearm(u64::MAX - 1), u64::MAX);
    assert_eq!(now(25_000_000), 2);
    assert_eq!(now(TIMEBASE - 1), 0);
}

#[test]
fn uart_registers() {
    let u = UART16550::new(0x1000_0000, 2, 11_059_200, 115_200);
    assert_eq!(u.reg_addr(5), Some(0x1000_0014));
    assert_eq!(u.divisor_latch(), Some(6));
    assert_eq!(UART16550::new(0, 0, 1, 0).divisor_latch(), None);
    assert_eq!(UART16550::new(u64::MAX, 0, 1, 1).reg_addr(1), None);
    assert_eq!(UART16550::new(0, 40, 1, 1).reg_addr(1), None);
}

#[test]
fn kernel_service_gets_its_pages() {
    let mut k = empty_kernel();
    let (req, resp) = k.boot_kernel_service(0x87f0_0040, 0, 0).unwrap();
    assert_ne!(req, resp);
    let (_, tf) = k.bootstrap().unwrap();
    assert_eq!(tf.sepc, 0x87f0_0040);
    assert_eq!((tf.x[10], tf.x[11]), (req * 4096, resp * 4096));
    assert_eq!(k.mem.read_u64(resp * 4096 + 8), 0);
}

#[test]
fn timer_trap_before_start_only_rearms() {
    let mut k = empty_kernel();
    let mut tf = TrapFrame::with_process(true, 0x10000, 0, 0, 0x8000_0000_0000_0005);
    let before = tf;
    assert_eq!(k.trap(&mut tf, 7, 0), Ok(TrapOutcome::Timer(7 + SLICE, None)));
    assert_eq!(tf.sepc, before.sepc);
    assert_eq!(tf.x, before.x);
}

#[test]
fn voluntary_switch_does_not_requeue() {
    let mut fa = allocator();
    let mut mem = PhysMem::new();
    let mut s = Sched::new();
    s.push(kernel_process(&mut fa, &mut mem, 0x1000));
    s.push(kernel_process(&mut fa, &mut mem, 0x2000));
    let (_, mut tf) = s.bootstrap().unwrap();
    assert!(s.tick(false, &mut tf).is_some());
    assert_eq!(s.running_id(), 2);
    // Process 1 was not requeued: nothing else is ready.
    assert!(s.tick(false, &mut tf).is_none());
    assert_eq!(s.running_id(), 2);
}

#[test]
fn ecall_trap_is_a_syscall() {
    let mut k = empty_kernel();
    let mut tf = TrapFrame::with_process(true, 0x10000, 0, 0, 8);
    tf.set_args(0x100, b'i' as u64);
    assert_eq!(k.trap(&mut tf, 0, 0), Ok(TrapOutcome::Syscall(SyscallOutcome::Print(b'i'))));
    assert_eq!(tf.sepc, 0x10004);
}
