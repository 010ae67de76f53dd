//! A small Sv39 microkernel core: physical frames, page tables, address
//! spaces, an ELF loader with dynamic relocation, a round-robin scheduler,
//! trap and syscall decisions, and the shared-memory service ring.
pub mod consts;
pub mod addr;
pub mod frame;
pub mod physmem;
pub mod paging;
pub mod set;
pub mod elf;
pub mod reloc;
pub mod trap;
pub mod process;
pub mod sched;
pub mod service;
pub mod timer;
pub mod serial;
pub mod kernel;
