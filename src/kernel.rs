//! The kernel's state and what it does on a trap: timer ticks reschedule,
//! `ecall`s are syscalls. `REQUEST_SERVICE` starts a helper process that
//! shares two fresh pages with the caller.
use vstd::prelude::*;
use crate::addr::{PhysPageNum, VirtPageNum};
use crate::consts::{SERIAL_BASE, SERVICE_REQ_VA, SERVICE_RESP_VA, VDSO_DATA};
use crate::frame::{Frame, FrameAllocator, lemma_after_alloc};
use crate::paging::{PTE, PTE_V, PagingError, pte_bits};
use crate::physmem::PhysMem;
use crate::process::{
    LoadError, Process, elf_entry_point, elf_section_table, in_section, in_stack, in_vdso_window, kernel_process_frames,
    user_domain, user_image_loads, user_process_frames,
};
use crate::reloc::{ExportedMethod, exports_view, exports_wf};
use crate::sched::{Sched, rotate};
use crate::set::{kernel_mapping, KernelLayout, MAP_R, MAP_U, MAP_W, MapArea, MapPermission, UserCaps};
use crate::timer::rearm;
use crate::trap::{
    Syscall, TrapCause, TrapFrame, advance_pc, decode_syscall, spec_decode_syscall, spec_trap_cause,
    trap_cause,
};

verus! {

#[derive(Clone, Copy, PartialEq, Eq, Structural, Debug)]
pub enum KernelError {
    /// `REQUEST_SERVICE` with an id past the service table.
    InvalidService(u64),
    /// A syscall arrived while no process was running.
    NoProcess,
    /// No process id is left.
    NoPid,
    OutOfFrames,
    Load(LoadError),
    Memory(PagingError),
    /// A trap cause the kernel does not handle: interrupt or exception,
    /// code, `sepc` and `stval`.
    UnhandledTrap(bool, u64, u64, u64),
}

/// What the platform code has to do after a syscall.
#[derive(Clone, Copy, PartialEq, Eq, Structural, Debug)]
pub enum SyscallOutcome {
    /// Print this byte on the serial port.
    Print(u8),
    /// The service pages at these physical page numbers were mapped into
    /// the caller.
    ServiceMapped(u64, u64),
    /// Nothing: the number is unknown.
    Ignored,
}

/// What the platform code has to do after a trap.
#[derive(Clone, Copy, PartialEq, Eq, Structural, Debug)]
pub enum TrapOutcome {
    /// Arm the timer for this deadline and, when given, activate this root
    /// table.
    Timer(u64, Option<PhysPageNum>),
    Syscall(SyscallOutcome),
}

/// The service pages' leaf: `U | R | W`.
pub open spec fn service_leaf(ppn: u64) -> PTE {
    PTE { bits: pte_bits(ppn, (MAP_U | MAP_R | MAP_W) | PTE_V) }
}

/// Neither service page lies in an allocatable section of a helper image.
pub open spec fn service_pages_free(hs: Seq<(Option<Seq<u8>>, bool, u64, u64, u64, u64)>) -> bool {
    forall|i: int| 0 <= i < hs.len() ==> !#[trigger] in_section(hs[i], SERVICE_REQ_VA as int / 4096) && !in_section(
        hs[i],
        SERVICE_RESP_VA as int / 4096,
    )
}

/// The service pages are not part of a helper whose image leaves them free.
proof fn lemma_service_pages_unmapped(
    l: KernelLayout,
    hs: Seq<(Option<Seq<u8>>, bool, u64, u64, u64, u64)>,
    img: Seq<u8>,
    ex: Seq<(Seq<u8>, u64)>,
    v: int,
)
    requires
        l.wf(),
        crate::process::image_fits(img, hs, l, UserCaps { serial: true }, ex),
        service_pages_free(hs),
        v == SERVICE_REQ_VA as int / 4096 || v == SERVICE_RESP_VA as int / 4096,
    ensures
        !user_domain(l, UserCaps { serial: true }, hs, v),
        !in_stack(v),
{
    let caps = UserCaps { serial: true };
    if kernel_mapping(l, caps).contains_key(v) {
        crate::set::lemma_kernel_domain(l, caps, v);
    }
    if exists|i: int| 0 <= i < hs.len() && #[trigger] in_section(hs[i], v) {
        let i = choose|i: int| 0 <= i < hs.len() && #[trigger] in_section(hs[i], v);
        assert(!in_section(hs[i], SERVICE_REQ_VA as int / 4096));
        assert(!in_section(hs[i], SERVICE_RESP_VA as int / 4096));
    }
    assert(!in_vdso_window(l, VDSO_DATA as int / 4096));
}

pub struct Kernel {
    pub frames: FrameAllocator,
    pub mem: PhysMem,
    pub sched: Sched,
    pub layout: KernelLayout,
    /// Kernel functions that user code may link against.
    pub exports: Vec<ExportedMethod>,
    /// The helper image of each service, by service id.
    pub services: Vec<Vec<u8>>,
}

impl Kernel {
    pub open spec fn wf(&self) -> bool {
        &&& self.frames@.wf()
        &&& self.mem.wf()
        &&& self.layout.wf()
        &&& exports_wf(exports_view(self.exports@), self.layout.text_vdso_start, self.layout.text_vdso_end)
        &&& self.sched.wf()
        &&& self.sched.procs_ok(self.frames@)
    }

    /// Frames that starting service `srv` takes at most: the two ring
    /// pages, the helper image, and three per ring mapping.
    pub open spec fn service_cost(&self, srv: int) -> int {
        2 + user_process_frames(self.layout, elf_section_table(self.services@[srv]@).unwrap()) + 6
    }

    /// Service `srv` can be started: its helper image loads with the frames
    /// left after the two ring pages, leaves the service pages free, and the
    /// frames suffice.
    pub open spec fn service_boots(&self, srv: int) -> bool {
        &&& 0 <= srv < self.services@.len()
        &&& self.sched.next_pid() < u64::MAX
        &&& user_image_loads(
            self.services@[srv]@,
            self.layout,
            UserCaps { serial: true },
            exports_view(self.exports@),
            self.frames@.available() - 2,
        )
        &&& service_pages_free(elf_section_table(self.services@[srv]@).unwrap())
        &&& self.frames@.available() >= self.service_cost(srv)
    }

    /// `REQUEST_SERVICE` for `srv` succeeds: a process runs, the service
    /// boots, the caller's service pages are free, and three frames per
    /// page are left for mapping them into the caller.
    pub open spec fn request_succeeds(&self, srv: int) -> bool {
        &&& self.service_boots(srv)
        &&& self.sched.running() != 0
        &&& !self.sched.process(self.sched.running()).mset.table.mapping().contains_key(SERVICE_REQ_VA as int / 4096)
        &&& !self.sched.process(self.sched.running()).mset.table.mapping().contains_key(SERVICE_RESP_VA as int / 4096)
        &&& self.frames@.available() >= self.service_cost(srv) + 6
    }

    /// A kernel with no process yet.
    pub fn new(
        frames: FrameAllocator,
        mem: PhysMem,
        layout: KernelLayout,
        exports: Vec<ExportedMethod>,
        services: Vec<Vec<u8>>,
    ) -> (r: Kernel)
        requires
            frames@.wf(),
            mem.wf(),
            layout.wf(),
            exports_wf(exports_view(exports@), layout.text_vdso_start, layout.text_vdso_end),
        ensures
            r.wf(),
            r.sched.running() == 0,
            r.sched.pids().len() == 0,
    {
        let sched = Sched::new();
        assert(sched.procs_ok(frames@));
        Kernel { frames, mem, sched, layout, exports, services }
    }

    /// Loads a user image and makes it ready; returns its id.
    pub fn spawn_user(&mut self, elf: &[u8], data: [u64; 2], caps: UserCaps, sstatus: u64, scause: u64) -> (r: Result<u64, KernelError>)
        requires
            old(self).wf(),
        ensures
            final(self).wf(),
            final(self).services == old(self).services,
            final(self).sched.running() == old(self).sched.running(),
            (r matches Ok(pid) ==> final(self).sched.pids() == old(self).sched.pids().push(pid)
                && final(self).sched.ready() == old(self).sched.ready().push(pid)),
            (r is Err ==> final(self).sched.pids() == old(self).sched.pids() && final(self).sched.ready() == old(self).sched.ready()),
            (old(self).sched.next_pid() == u64::MAX ==> r == Err::<u64, KernelError>(KernelError::NoPid)),
            (old(self).sched.next_pid() < u64::MAX && crate::process::elf_section_table(elf@) is None && crate::process::shoff_aligned(
                elf@,
            ) ==> r == Err::<u64, KernelError>(KernelError::Load(LoadError::BadElf))),
            (old(self).sched.next_pid() < u64::MAX && user_image_loads(elf@, old(self).layout, caps, exports_view(
                old(self).exports@,
            ), old(self).frames@.available()) ==> r is Ok),
    {
        if !self.sched.pid_available() {
            return Err(KernelError::NoPid);
        }
        let ghost a0 = self.frames@;
        let p = match Process::new_user(elf, data, caps, &mut self.frames, &mut self.mem, &self.layout, &self.exports, sstatus, scause) {
            Ok(p) => p,
            Err(e) => {
                proof {
                    self.sched.lemma_procs_ok_mono(a0, self.frames@);
                }
                return Err(KernelError::Load(e));
            },
        };
        proof {
            self.sched.lemma_procs_ok_mono(a0, self.frames@);
        }
        self.push_process(p)
    }

    fn push_process(&mut self, p: Process) -> (r: Result<u64, KernelError>)
        requires
            old(self).wf(),
            old(self).sched.next_pid() < u64::MAX,
            p.mset.wf(),
            p.mset.lent_from(old(self).frames@),
        ensures
            final(self).wf(),
            final(self).services == old(self).services,
            final(self).frames == old(self).frames,
            final(self).mem == old(self).mem,
            final(self).sched.running() == old(self).sched.running(),
            (r matches Ok(pid) ==> final(self).sched.pids() == old(self).sched.pids().push(pid)
                && final(self).sched.ready() == old(self).sched.ready().push(pid)
                && forall|q: u64| #[trigger] old(self).sched.pids().contains(q) ==> final(self).sched.process(q) == old(self).sched.process(q)),
            r is Ok,
    {
        let ghost s0 = self.sched;
        let ghost pm = p;
        let pid = self.sched.push(p);
        proof {
            Sched::lemma_push_procs_ok(s0, self.sched, self.frames@, pid);
        }
        Ok(pid)
    }

    /// Starts the helper of service `srv`: two fresh zeroed frames, the
    /// request and response rings, are mapped into a new user process (with
    /// serial access) at the service addresses, which it also gets in `a0`
    /// and `a1` with the serial base; the helper is made ready. The frames
    /// are then shared for good: no handle to them is kept. Returns their
    /// page numbers.
    pub fn boot_service(&mut self, srv: usize, sstatus: u64, scause: u64) -> (r: Result<(u64, u64), KernelError>)
        requires
            old(self).wf(),
            srv < old(self).services@.len(),
        ensures
            final(self).wf(),
            final(self).services == old(self).services,
            final(self).sched.running() == old(self).sched.running(),
            (r is Ok ==> final(self).sched.pids().len() == old(self).sched.pids().len() + 1),
            (r is Ok ==> final(self).sched.pids().drop_last() == old(self).sched.pids()),
            (r is Ok ==> final(self).sched.ready().drop_last() == old(self).sched.ready()),
            (r is Ok ==> forall|q: u64| #[trigger] old(self).sched.pids().contains(q) ==> final(self).sched.process(q)
                == old(self).sched.process(q)),
            (r matches Ok((req, resp)) ==> req < 0x1000_0000_0000 && resp < 0x1000_0000_0000 && req != resp),
            (r is Err ==> final(self).sched.pids() == old(self).sched.pids() && final(self).sched.ready() == old(self).sched.ready()),
            (r matches Err(e) ==> !(e is InvalidService)),
            (r matches Ok((req, resp)) ==> {
                let pid = final(self).sched.pids().last();
                let hp = final(self).sched.process(pid);
                let m = hp.mset.table.mapping();
                &&& final(self).sched.pids() == old(self).sched.pids().push(pid)
                &&& final(self).sched.ready() == old(self).sched.ready().push(pid)
                &&& m.contains_key(SERVICE_REQ_VA as int / 4096) && m[SERVICE_REQ_VA as int / 4096] == service_leaf(req)
                &&& m.contains_key(SERVICE_RESP_VA as int / 4096) && m[SERVICE_RESP_VA as int / 4096] == service_leaf(resp)
                &&& hp.tf.x@[10] == SERVICE_REQ_VA && hp.tf.x@[11] == SERIAL_BASE
                &&& elf_entry_point(old(self).services@[srv as int]@) == Some(hp.tf.sepc)
                &&& forall|off: int| 0 <= off < 4096 ==> #[trigger] final(self).mem.byte(req * 4096 + off) == 0
                &&& forall|off: int| 0 <= off < 4096 ==> #[trigger] final(self).mem.byte(resp * 4096 + off) == 0
            }),
            (old(self).service_boots(srv as int) ==> r is Ok),
            (r is Ok ==> final(self).frames@.available() >= old(self).frames@.available() - old(self).service_cost(srv as int)),
    {
        let ghost k0 = *self;
        let ghost boots = self.service_boots(srv as int);
        let ghost img = self.services@[srv as int]@;
        proof {
            assert(boots ==> k0.service_cost(srv as int) >= 8) by {
                if boots {
                    let hs = elf_section_table(img).unwrap();
                    crate::process::lemma_cost_mono(hs, 0, hs.len() as int);
                }
            }
        }
        if !self.sched.pid_available() {
            return Err(KernelError::NoPid);
        }
        let ghost a0 = self.frames@;
        proof {
            lemma_after_alloc(self.frames@);
        }
        let req = match Frame::allocate(&mut self.frames) {
            Some(f) => f,
            None => {
                return Err(KernelError::OutOfFrames);
            },
        };
        let ghost a1 = self.frames@;
        proof {
            lemma_after_alloc(self.frames@);
        }
        let resp = match Frame::allocate(&mut self.frames) {
            Some(f) => f,
            None => {
                proof {
                    self.sched.lemma_procs_ok_mono(a0, self.frames@);
                }
                return Err(KernelError::OutOfFrames);
            },
        };
        proof {
            assert(a1.lent(req.number()));
            assert(req.number() != resp.number()) by {
                assert(a1.holds(resp.number() as int));
                assert(!a1.holds(req.number() as int));
            }
        }
        let req_ppn = req.ppn();
        let resp_ppn = resp.ppn();
        let ghost a2 = self.frames@;
        proof {
            self.sched.lemma_procs_ok_mono(a0, a2);
        }
        let mut helper = match Process::new_user(
            &self.services[srv],
            [SERVICE_REQ_VA, SERIAL_BASE],
            UserCaps { serial: true },
            &mut self.frames,
            &mut self.mem,
            &self.layout,
            &self.exports,
            sstatus,
            scause,
        ) {
            Ok(p) => p,
            Err(e) => {
                proof {
                    self.sched.lemma_procs_ok_mono(a2, self.frames@);
                }
                return Err(KernelError::Load(e));
            },
        };
        let urw = MapPermission { bits: MAP_U | MAP_R | MAP_W };
        assert(16u8 | 2u8 | 4u8 == 22u8 && 22u8 & 0xe1u8 == 0u8) by (bit_vector);
        let req_area = MapArea::linear(req_ppn, PhysPageNum(req_ppn.0 + 1), VirtPageNum(SERVICE_REQ_VA / 4096), urw);
        let resp_area = MapArea::linear(resp_ppn, PhysPageNum(resp_ppn.0 + 1), VirtPageNum(SERVICE_RESP_VA / 4096), urw);
        let ghost mh = helper.mset.table.mapping();
        proof {
            assert forall|v: int| #[trigger] mh.contains_key(v) implies (user_domain(
                k0.layout,
                UserCaps { serial: true },
                elf_section_table(img).unwrap(),
                v,
            ) || in_stack(v)) by {}
        }
        let ghost req_v = SERVICE_REQ_VA as int / 4096;
        let ghost resp_v = SERVICE_RESP_VA as int / 4096;
        proof {
            assert forall|v: int| #[trigger] req_area.in_range(v) implies req_area.ready_for(v) by {}
            assert forall|v: int| #[trigger] resp_area.in_range(v) implies resp_area.ready_for(v) by {}
            assert forall|v: int| #[trigger] req_area.in_range(v) <==> v == req_v by {}
            assert forall|v: int| #[trigger] resp_area.in_range(v) <==> v == resp_v by {}
            assert(boots ==> !mh.contains_key(req_v) && !mh.contains_key(resp_v)) by {
                if boots {
                    lemma_service_pages_unmapped(k0.layout, elf_section_table(img).unwrap(), img, exports_view(k0.exports@), req_v);
                    lemma_service_pages_unmapped(k0.layout, elf_section_table(img).unwrap(), img, exports_view(k0.exports@), resp_v);
                }
            }
        }
        let ghost a3 = self.frames@;
        match helper.mset.push(&mut self.frames, &mut self.mem, req_area, None) {
            Ok(()) => {},
            Err(e) => {
                proof {
                    self.sched.lemma_procs_ok_mono(a2, self.frames@);
                }
                return Err(KernelError::Memory(e));
            },
        }
        match helper.mset.push(&mut self.frames, &mut self.mem, resp_area, None) {
            Ok(()) => {},
            Err(e) => {
                proof {
                    self.sched.lemma_procs_ok_mono(a2, self.frames@);
                }
                return Err(KernelError::Memory(e));
            },
        }
        proof {
            self.sched.lemma_procs_ok_mono(a2, self.frames@);
        }
        // The rings start empty: both pages are zeroed once the helper is in place.
        self.mem.zero_page(req_ppn.0);
        self.mem.zero_page(resp_ppn.0);
        let ghost s0 = self.sched;
        let ghost hp = helper;
        let pid = self.sched.push(helper);
        proof {
            Sched::lemma_push_procs_ok(s0, self.sched, self.frames@, pid);
            assert(self.sched.pids().last() == pid);
            assert forall|off: int| 0 <= off < 4096 implies #[trigger] self.mem.byte(req_ppn.0 * 4096 + off) == 0 by {
                assert(req_ppn.0 != resp_ppn.0);
            }
        }
        Ok((req_ppn.0, resp_ppn.0))
    }

    /// Handles the `ecall` in `tf`. `PUTCHAR` hands its byte to the caller
    /// of this function to print; `REQUEST_SERVICE` boots the service and
    /// maps its two pages into the running process at the service addresses,
    /// returned in `a0` and `a1`; unknown numbers are ignored. On success
    /// `sepc` moves past the `ecall`.
    pub fn syscall(&mut self, tf: &mut TrapFrame, sstatus: u64, scause: u64) -> (r: Result<SyscallOutcome, KernelError>)
        requires
            old(self).wf(),
        ensures
            final(self).wf(),
            final(self).services == old(self).services,
            ({
                let call = spec_decode_syscall(old(tf).x@[10], old(tf).x@[11]);
                &&& (call matches Syscall::Putchar(b) ==> r == Ok::<SyscallOutcome, KernelError>(SyscallOutcome::Print(b))
                    && *final(self) == *old(self))
                &&& (call is Unknown ==> r == Ok::<SyscallOutcome, KernelError>(SyscallOutcome::Ignored)
                    && *final(self) == *old(self))
                &&& (!(call is RequestService) ==> final(tf).x == old(tf).x && final(tf).sepc == old(tf).sepc.wrapping_add(4))
                &&& (call matches Syscall::RequestService(srv) ==> (srv >= old(self).services@.len() <==> r
                    == Err::<SyscallOutcome, KernelError>(KernelError::InvalidService(srv))))
                &&& (call is RequestService && r is Ok ==> {
                    &&& final(self).sched.pids().len() == old(self).sched.pids().len() + 1
                    &&& final(self).sched.pids().drop_last() == old(self).sched.pids()
                    &&& final(self).sched.ready() == old(self).sched.ready().push(final(self).sched.pids().last())
                })
                &&& (call is RequestService && r is Ok ==> {
                    let cur = old(self).sched.running();
                    let m = final(self).sched.process(cur).mset.table.mapping();
                    &&& r matches Ok(SyscallOutcome::ServiceMapped(req, resp))
                    &&& final(tf).x@ == old(tf).x@.update(10, SERVICE_REQ_VA).update(11, SERVICE_RESP_VA)
                    &&& final(tf).sepc == old(tf).sepc.wrapping_add(4)
                    &&& final(self).sched.running() == cur
                    &&& m.contains_key(SERVICE_REQ_VA as int / 4096)
                    &&& m[SERVICE_REQ_VA as int / 4096] == service_leaf(req)
                    &&& m.contains_key(SERVICE_RESP_VA as int / 4096)
                    &&& m[SERVICE_RESP_VA as int / 4096] == service_leaf(resp)
                })
                &&& (r is Err ==> final(tf).sepc == old(tf).sepc)
                &&& (call matches Syscall::RequestService(srv) ==> (srv < old(self).services@.len() && old(self).sched.running() == 0
                    ==> r == Err::<SyscallOutcome, KernelError>(KernelError::NoProcess)))
                &&& (call matches Syscall::RequestService(srv) ==> (old(self).request_succeeds(srv as int) ==> r is Ok))
                &&& (call matches Syscall::RequestService(srv) ==> (srv >= old(self).services@.len() || old(self).sched.running()
                    == 0 ==> *final(self) == *old(self) && *final(tf) == *old(tf)))
            }),
            final(tf).sstatus == old(tf).sstatus,
            final(tf).stval == old(tf).stval,
            final(tf).scause == old(tf).scause,
    {
        match decode_syscall(tf) {
            Syscall::Putchar(b) => {
                advance_pc(tf);
                Ok(SyscallOutcome::Print(b))
            },
            Syscall::Unknown(_) => {
                advance_pc(tf);
                Ok(SyscallOutcome::Ignored)
            },
            Syscall::RequestService(srv) => {
                if srv >= self.services.len() as u64 {
                    return Err(KernelError::InvalidService(srv));
                }
                if self.sched.running_id() == 0 {
                    return Err(KernelError::NoProcess);
                }
                let ghost cur = self.sched.running();
                proof {
                    self.sched.lemma_running_present();
                }
                let (req, resp) = match self.boot_service(srv as usize, sstatus, scause) {
                    Ok(p) => p,
                    Err(e) => {
                        return Err(e);
                    },
                };
                proof {
                    assert(self.sched.pids().contains(cur)) by {
                        let old_pids = self.sched.pids().drop_last();
                        assert(old_pids.contains(cur));
                        let j = choose|j: int| 0 <= j < old_pids.len() && old_pids[j] == cur;
                        assert(self.sched.pids()[j] == old_pids[j]);
                    }
                }
                let urw = MapPermission { bits: MAP_U | MAP_R | MAP_W };
                assert(16u8 | 2u8 | 4u8 == 22u8 && 22u8 & 0xe1u8 == 0u8) by (bit_vector);
                let req_area = MapArea::linear(PhysPageNum(req), PhysPageNum(req + 1), VirtPageNum(SERVICE_REQ_VA / 4096), urw);
                let resp_area = MapArea::linear(PhysPageNum(resp), PhysPageNum(resp + 1), VirtPageNum(SERVICE_RESP_VA / 4096), urw);
                let ghost ra = req_area;
                let ghost pa = resp_area;
                let ghost succ = old(self).request_succeeds(srv as int);
                let ghost mc = self.sched.process(cur).mset.table.mapping();
                proof {
                    assert forall|v: int| #[trigger] req_area.in_range(v) <==> v == SERVICE_REQ_VA as int / 4096 by {}
                    assert forall|v: int| #[trigger] resp_area.in_range(v) <==> v == SERVICE_RESP_VA as int / 4096 by {}
                    assert(old(self).sched.pids().contains(cur));
                    assert(mc == old(self).sched.process(cur).mset.table.mapping());
                }
                proof {
                    assert forall|v: int| #[trigger] req_area.in_range(v) implies req_area.ready_for(v) by {}
                    assert forall|v: int| #[trigger] resp_area.in_range(v) implies resp_area.ready_for(v) by {}
                }
                match self.sched.push_into_running(&mut self.frames, &mut self.mem, req_area) {
                    Ok(()) => {},
                    Err(e) => {
                        return Err(KernelError::Memory(e));
                    },
                }
                let ghost m1 = self.sched.process(cur).mset.table.mapping();
                proof {
                    assert(m1.contains_key(SERVICE_REQ_VA as int / 4096));
                    assert(succ ==> !m1.contains_key(SERVICE_RESP_VA as int / 4096)) by {
                        if succ {
                            let added = self.sched.process(cur).mset.areas().last();
                            assert(!ra.in_range(SERVICE_RESP_VA as int / 4096));
                            assert(added == ra);
                        }
                    }
                }
                proof {
                    crate::paging::lemma_pte_fields(req, (MAP_U | MAP_R | MAP_W) | PTE_V);
                    assert(ra.in_range(SERVICE_REQ_VA as int / 4096));
                    assert(m1.contains_key(SERVICE_REQ_VA as int / 4096));
                    assert(m1[SERVICE_REQ_VA as int / 4096] == service_leaf(req));
                }
                match self.sched.push_into_running(&mut self.frames, &mut self.mem, resp_area) {
                    Ok(()) => {},
                    Err(e) => {
                        return Err(KernelError::Memory(e));
                    },
                }
                proof {
                    let m2 = self.sched.process(cur).mset.table.mapping();
                    assert(pa.in_range(SERVICE_RESP_VA as int / 4096));
                    assert(!pa.in_range(SERVICE_REQ_VA as int / 4096));
                    assert(m2[SERVICE_REQ_VA as int / 4096] == service_leaf(req));
                    assert(m2[SERVICE_RESP_VA as int / 4096] == service_leaf(resp));
                }
                tf.set_args(SERVICE_REQ_VA, SERVICE_RESP_VA);
                advance_pc(tf);
                Ok(SyscallOutcome::ServiceMapped(req, resp))
            },
        }
    }

    /// Handles a trap whose frame is `tf`, at timer value `rtc`. A timer
    /// interrupt rearms the timer one slice on and switches to the next
    /// ready process (the running one goes to the back of the queue); a user
    /// `ecall` is a syscall; any other cause is refused with `sepc` and
    /// `stval`.
    pub fn trap(&mut self, tf: &mut TrapFrame, rtc: u64, sstatus: u64) -> (r: Result<TrapOutcome, KernelError>)
        requires
            old(self).wf(),
        ensures
            final(self).wf(),
            final(self).services == old(self).services,
            (spec_trap_cause(old(tf).scause) is SupervisorTimer ==> {
                &&& r matches Ok(TrapOutcome::Timer(d, _))
                &&& d == (if rtc <= u64::MAX - crate::timer::SLICE { (rtc + crate::timer::SLICE) as u64 } else { u64::MAX })
                &&& (old(self).sched.running() != 0 ==> final(self).sched.cycle() == rotate(old(self).sched.cycle()))
                &&& (old(self).sched.running() != 0 ==> {
                    let cur = old(self).sched.running();
                    let next = old(self).sched.ready().push(cur)[0];
                    &&& final(self).sched.process(cur).tf == *old(tf)
                    &&& final(self).sched.running() == next
                    &&& *final(tf) == final(self).sched.process(next).tf
                    &&& r == Ok::<TrapOutcome, KernelError>(TrapOutcome::Timer(
                        d,
                        Some(PhysPageNum(final(self).sched.process(next).mset.table.root())),
                    ))
                })
                &&& (old(self).sched.running() == 0 ==> *final(tf) == *old(tf))
            }),
            (spec_trap_cause(old(tf).scause) is UserEnvCall ==> {
                let call = spec_decode_syscall(old(tf).x@[10], old(tf).x@[11]);
                &&& (r is Err || r matches Ok(TrapOutcome::Syscall(_)))
                &&& (call matches Syscall::Putchar(b) ==> r == Ok::<TrapOutcome, KernelError>(TrapOutcome::Syscall(SyscallOutcome::Print(b)))
                    && final(tf).x == old(tf).x && final(tf).sepc == old(tf).sepc.wrapping_add(4))
                &&& (call matches Syscall::RequestService(srv) ==> (old(self).request_succeeds(srv as int) ==> r matches Ok(
                    TrapOutcome::Syscall(SyscallOutcome::ServiceMapped(_, _)),
                )))
                &&& (call is RequestService && r is Ok ==> {
                    let cur = old(self).sched.running();
                    let m = final(self).sched.process(cur).mset.table.mapping();
                    &&& r matches Ok(TrapOutcome::Syscall(SyscallOutcome::ServiceMapped(req, resp)))
                    &&& final(tf).x@ == old(tf).x@.update(10, SERVICE_REQ_VA).update(11, SERVICE_RESP_VA)
                    &&& final(tf).sepc == old(tf).sepc.wrapping_add(4)
                    &&& m.contains_key(SERVICE_REQ_VA as int / 4096)
                    &&& m[SERVICE_REQ_VA as int / 4096] == service_leaf(req)
                    &&& m.contains_key(SERVICE_RESP_VA as int / 4096)
                    &&& m[SERVICE_RESP_VA as int / 4096] == service_leaf(resp)
                })
                &&& (call is Unknown ==> r == Ok::<TrapOutcome, KernelError>(TrapOutcome::Syscall(SyscallOutcome::Ignored))
                    && final(tf).x == old(tf).x && final(tf).sepc == old(tf).sepc.wrapping_add(4))
                &&& (call matches Syscall::RequestService(srv) ==> (srv >= old(self).services@.len() <==> r
                    == Err::<TrapOutcome, KernelError>(KernelError::InvalidService(srv))))
            }),
            (spec_trap_cause(old(tf).scause) matches TrapCause::Other(i, code) ==> r
                == Err::<TrapOutcome, KernelError>(KernelError::UnhandledTrap(i, code, old(tf).sepc, old(tf).stval))
                && *final(tf) == *old(tf) && *final(self) == *old(self)),
    {
        match trap_cause(tf.scause) {
            TrapCause::SupervisorTimer => {
                let deadline = rearm(rtc);
                let ghost s0 = self.sched;
                let root = self.sched.tick(true, tf);
                proof {
                    if s0.running() != 0 {
                        Sched::lemma_procs_ok_same(s0, self.sched, self.frames@);
                    }
                }
                Ok(TrapOutcome::Timer(deadline, root))
            },
            TrapCause::UserEnvCall => {
                let scause = tf.scause;
                match self.syscall(tf, sstatus, scause) {
                    Ok(o) => Ok(TrapOutcome::Syscall(o)),
                    Err(e) => Err(e),
                }
            },
            TrapCause::Other(i, code) => Err(KernelError::UnhandledTrap(i, code, tf.sepc, tf.stval)),
        }
    }

    /// Starts the first ready process; see `Sched::bootstrap`.
    pub fn bootstrap(&mut self) -> (r: Option<(PhysPageNum, TrapFrame)>)
        requires
            old(self).wf(),
        ensures
            final(self).wf(),
            old(self).sched.ready().len() == 0 ==> r is None,
            old(self).sched.ready().len() > 0 ==> {
                let first = old(self).sched.ready()[0];
                &&& final(self).sched.running() == first
                &&& r == Some((PhysPageNum(old(self).sched.process(first).mset.table.root()), old(self).sched.process(first).tf))
            },
    {
        let ghost s0 = self.sched;
        let r = self.sched.bootstrap();
        proof {
            Sched::lemma_procs_ok_same(s0, self.sched, self.frames@);
        }
        r
    }

    /// Starts a kernel helper at `entry` for a new service channel: two
    /// fresh zeroed frames, whose physical addresses it gets in `a0` and
    /// `a1`; it reaches them through the kernel's identity window. Returns
    /// their page numbers.
    pub fn boot_kernel_service(&mut self, entry: u64, sstatus: u64, scause: u64) -> (r: Result<(u64, u64), KernelError>)
        requires
            old(self).wf(),
        ensures
            final(self).wf(),
            final(self).services == old(self).services,
            final(self).sched.running() == old(self).sched.running(),
            (r is Ok ==> final(self).sched.pids().drop_last() == old(self).sched.pids()),
            (r is Ok ==> final(self).sched.ready().drop_last() == old(self).sched.ready()),
            (r matches Ok((req, resp)) ==> {
                let pid = final(self).sched.pids().last();
                &&& req != resp
                &&& final(self).sched.process(pid).tf.sepc == entry
                &&& final(self).sched.process(pid).tf.x@[10] == req * 4096
                &&& final(self).sched.process(pid).tf.x@[11] == resp * 4096
            }),
            (r is Err ==> final(self).sched.pids() == old(self).sched.pids() && final(self).sched.ready() == old(self).sched.ready()),
            (old(self).sched.next_pid() < u64::MAX && old(self).frames@.available() >= 2 + kernel_process_frames(
                old(self).layout,
            ) ==> r is Ok),
    {
        if !self.sched.pid_available() {
            return Err(KernelError::NoPid);
        }
        let ghost a0 = self.frames@;
        proof {
            lemma_after_alloc(self.frames@);
        }
        let req = match Frame::allocate(&mut self.frames) {
            Some(f) => f,
            None => {
                return Err(KernelError::OutOfFrames);
            },
        };
        let ghost a1 = self.frames@;
        proof {
            lemma_after_alloc(self.frames@);
        }
        let resp = match Frame::allocate(&mut self.frames) {
            Some(f) => f,
            None => {
                proof {
                    self.sched.lemma_procs_ok_mono(a0, self.frames@);
                }
                return Err(KernelError::OutOfFrames);
            },
        };
        proof {
            assert(req.number() != resp.number()) by {
                assert(a1.holds(resp.number() as int));
                assert(!a1.holds(req.number() as int));
            }
        }
        let req_ppn = req.ppn();
        let resp_ppn = resp.ppn();
        self.mem.zero_page(req_ppn.0);
        self.mem.zero_page(resp_ppn.0);
        let ghost a2 = self.frames@;
        proof {
            self.sched.lemma_procs_ok_mono(a0, a2);
        }
        let helper = match Process::new_kernel(
            entry,
            [req_ppn.0 * 4096, resp_ppn.0 * 4096],
            &mut self.frames,
            &mut self.mem,
            &self.layout,
            sstatus,
            scause,
        ) {
            Ok(p) => p,
            Err(e) => {
                proof {
                    self.sched.lemma_procs_ok_mono(a2, self.frames@);
                }
                return Err(KernelError::Load(e));
            },
        };
        proof {
            self.sched.lemma_procs_ok_mono(a2, self.frames@);
        }
        let ghost s0 = self.sched;
        let ghost hp = helper;
        let pid = self.sched.push(helper);
        proof {
            Sched::lemma_push_procs_ok(s0, self.sched, self.frames@, pid);
            assert(self.sched.pids().last() == pid);
        }
        Ok((req_ppn.0, resp_ppn.0))
    }
}

} // verus!
