//! Platform constants of the kernel.
use vstd::prelude::*;

verus! {

pub const KERNEL_HEAP_SIZE: usize = 0x80_0000;

pub const KERNEL_STACK_SIZE: usize = 0x8_0000;

/// First physical address past the RAM that the kernel manages.
pub const PHYS_MEMORY_END: u64 = 0x8800_0000;

pub const PAGE_SIZE: usize = 4096;

pub const PAGE_SIZE_BITS: u64 = 12;

pub const PAGE_SIZE_U64: u64 = 4096;

/// Top of every process stack (exclusive).
pub const PROCESS_STACK_TOP: u64 = 0x8000_0000;

/// Pages in a process stack.
pub const PROCESS_STACK_PAGES: u64 = 16;

/// Virtual base of the shared vDSO text in user space.
pub const VDSO_RESIDE: u64 = 0x6000_0000;

/// Virtual address of the per-process vDSO data page.
pub const VDSO_DATA: u64 = 0x6100_0000;

/// Virtual addresses at which service request / response rings are mapped.
pub const SERVICE_REQ_VA: u64 = 0x6400_0000;

pub const SERVICE_RESP_VA: u64 = 0x6400_1000;

/// Physical base of the 16550 serial port.
pub const SERIAL_BASE: u64 = 0x1000_0000;

} // verus!
