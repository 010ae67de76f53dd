//! The saved register state of a trap, and what a trap's cause and a
//! syscall's registers ask the kernel to do.
use vstd::prelude::*;

verus! {

/// `sstatus.SPIE`: interrupts are enabled after `sret`.
pub const SSTATUS_SPIE: u64 = 0x20;

/// `sstatus.SPP`: `sret` returns to supervisor mode when set, to user mode
/// when clear.
pub const SSTATUS_SPP: u64 = 0x100;

pub const SCAUSE_INTERRUPT: u64 = 0x8000_0000_0000_0000;

pub const IRQ_SUPERVISOR_TIMER: u64 = 5;

pub const EXC_USER_ENV_CALL: u64 = 8;

/// Syscall numbers, passed in `a0`.
pub const SYS_REQUEST_SERVICE: u64 = 0x3;

pub const SYS_PUTCHAR: u64 = 0x100;

/// General registers (`x[0]` is a placeholder), then `sstatus`, `sepc`,
/// `stval` and `scause`.
#[derive(Clone, Copy, Debug)]
pub struct TrapFrame {
    pub x: [u64; 32],
    pub sstatus: u64,
    pub sepc: u64,
    pub stval: u64,
    pub scause: u64,
}

pub open spec fn start_status(is_user: bool, sstatus: u64) -> u64 {
    if is_user {
        (sstatus | SSTATUS_SPIE) & !SSTATUS_SPP
    } else {
        sstatus | SSTATUS_SPIE | SSTATUS_SPP
    }
}

impl TrapFrame {
    /// The frame that starts a process at `entry` with stack pointer `sp`:
    /// from the current `sstatus`, interrupts enabled after `sret` and the
    /// previous privilege set to user or supervisor.
    pub fn with_process(is_user: bool, entry: u64, sp: u64, sstatus: u64, scause: u64) -> (r: TrapFrame)
        ensures
            r.sepc == entry,
            r.x@[2] == sp,
            forall|i: int| 0 <= i < 32 && i != 2 ==> r.x@[i] == 0,
            r.sstatus == start_status(is_user, sstatus),
            r.sstatus & SSTATUS_SPIE == SSTATUS_SPIE,
            (r.sstatus & SSTATUS_SPP == 0) == is_user,
            !is_user ==> r.sstatus & SSTATUS_SPP == SSTATUS_SPP,
            r.stval == 0,
            r.scause == scause,
    {
        let status = if is_user {
            (sstatus | SSTATUS_SPIE) & !SSTATUS_SPP
        } else {
            sstatus | SSTATUS_SPIE | SSTATUS_SPP
        };
        assert(((sstatus | 0x20u64) & !0x100u64) & 0x20u64 == 0x20u64) by (bit_vector);
        assert(((sstatus | 0x20u64) & !0x100u64) & 0x100u64 == 0u64) by (bit_vector);
        assert((sstatus | 0x20u64 | 0x100u64) & 0x20u64 == 0x20u64) by (bit_vector);
        assert((sstatus | 0x20u64 | 0x100u64) & 0x100u64 == 0x100u64) by (bit_vector);
        let mut x = [0u64; 32];
        x[2] = sp;
        TrapFrame { x, sstatus: status, sepc: entry, stval: 0, scause }
    }

    /// Sets the two argument registers `a0` and `a1`.
    pub fn set_args(&mut self, a0: u64, a1: u64)
        ensures
            final(self).x@ == old(self).x@.update(10, a0).update(11, a1),
            final(self).sstatus == old(self).sstatus,
            final(self).sepc == old(self).sepc,
            final(self).stval == old(self).stval,
            final(self).scause == old(self).scause,
    {
        self.x[10] = a0;
        self.x[11] = a1;
    }
}

/// The causes the kernel handles.
#[derive(Clone, Copy, PartialEq, Eq, Structural, Debug)]
pub enum TrapCause {
    SupervisorTimer,
    UserEnvCall,
    /// Any other interrupt (`true`) or exception, with its code.
    Other(bool, u64),
}

pub open spec fn spec_trap_cause(scause: u64) -> TrapCause {
    let interrupt = scause >= SCAUSE_INTERRUPT;
    let code = scause % SCAUSE_INTERRUPT;
    if interrupt && code == IRQ_SUPERVISOR_TIMER {
        TrapCause::SupervisorTimer
    } else if !interrupt && code == EXC_USER_ENV_CALL {
        TrapCause::UserEnvCall
    } else {
        TrapCause::Other(interrupt, code)
    }
}

/// Decodes `scause`: the top bit tells interrupts from exceptions, the rest
/// is the code.
pub fn trap_cause(scause: u64) -> (r: TrapCause)
    ensures
        r == spec_trap_cause(scause),
{
    let interrupt = scause >= SCAUSE_INTERRUPT;
    let code = scause & !SCAUSE_INTERRUPT;
    assert(scause & !0x8000_0000_0000_0000u64 == scause % 0x8000_0000_0000_0000u64) by (bit_vector);
    if interrupt && code == IRQ_SUPERVISOR_TIMER {
        TrapCause::SupervisorTimer
    } else if !interrupt && code == EXC_USER_ENV_CALL {
        TrapCause::UserEnvCall
    } else {
        TrapCause::Other(interrupt, code)
    }
}

/// What a user `ecall` asks for, from `a0` and `a1`.
#[derive(Clone, Copy, PartialEq, Eq, Structural, Debug)]
pub enum Syscall {
    RequestService(u64),
    /// The low byte of `a1`.
    Putchar(u8),
    Unknown(u64),
}

pub open spec fn spec_decode_syscall(a0: u64, a1: u64) -> Syscall {
    if a0 == SYS_REQUEST_SERVICE {
        Syscall::RequestService(a1)
    } else if a0 == SYS_PUTCHAR {
        Syscall::Putchar((a1 % 256) as u8)
    } else {
        Syscall::Unknown(a0)
    }
}

pub fn decode_syscall(tf: &TrapFrame) -> (r: Syscall)
    ensures
        r == spec_decode_syscall(tf.x@[10], tf.x@[11]),
{
    let a0 = tf.x[10];
    let a1 = tf.x[11];
    if a0 == SYS_REQUEST_SERVICE {
        Syscall::RequestService(a1)
    } else if a0 == SYS_PUTCHAR {
        Syscall::Putchar((a1 % 256) as u8)
    } else {
        Syscall::Unknown(a0)
    }
}

/// Moves `sepc` past the `ecall` instruction.
pub fn advance_pc(tf: &mut TrapFrame)
    ensures
        final(tf).sepc == old(tf).sepc.wrapping_add(4),
        final(tf).x == old(tf).x,
        final(tf).sstatus == old(tf).sstatus,
        final(tf).stval == old(tf).stval,
        final(tf).scause == old(tf).scause,
{
    tf.sepc = tf.sepc.wrapping_add(4);
}

} // verus!
