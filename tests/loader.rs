use channel_os::addr::{PhysAddr, VirtAddr, VirtPageNum};
use channel_os::consts::{PROCESS_STACK_TOP, SERIAL_BASE, SERVICE_REQ_VA, SERVICE_RESP_VA, VDSO_DATA, VDSO_RESIDE};
use channel_os::kernel::{Kernel, SyscallOutcome};
use channel_os::elf::{rela_sizes_present, Dynamic, DynamicError, Elf64RELA, RelTable, Sym};
use channel_os::frame::FrameAllocator;
use channel_os::paging::{PTEFlags, PageTable, PTE_R, PTE_U, PTE_W, PTE_X};
use channel_os::physmem::PhysMem;
use channel_os::process::{section_permission, LoadError, Process};
use channel_os::reloc::{apply_relocations, relocate_one, ExportedMethod, RelocError};
use channel_os::set::{KernelLayout, MemorySet, UserCaps, MAP_R, MAP_U, MAP_W, MAP_X};
use channel_os::trap::{SSTATUS_SPIE, SSTATUS_SPP};

fn layout() -> KernelLayout {
    KernelLayout {
        text_start: 0x87f0_0000,
        text_end: 0x87f0_2000,
        ro_start: 0x87f0_2000,
        ro_end: 0x87f0_3000,
        rw_start: 0x87f0_3000,
        rw_end: 0x87f0_4000,
        kernel_end: 0x87f0_4000,
        text_vdso_start: 0x87f0_1000,
        text_vdso_end: 0x87f0_1800,
    }
}

fn allocator() -> FrameAllocator {
    FrameAllocator::new(PhysAddr(0x8100_0000), PhysAddr(0x8200_0000))
}

fn put(v: &mut Vec<u8>, off: usize, bytes: &[u8]) {
    if v.len() < off + bytes.len() {
        v.resize(off + bytes.len(), 0);
    }
    v[off..off + bytes.len()].copy_from_slice(bytes);
}

fn u16le(x: u16) -> [u8; 2] {
    x.to_le_bytes()
}

fn u32le(x: u32) -> [u8; 4] {
    x.to_le_bytes()
}

fn u64le(x: u64) -> [u8; 8] {
    x.to_le_bytes()
}

#[allow(clippy::too_many_arguments)]
fn section(v: &mut Vec<u8>, at: usize, name: u32, ty: u32, flags: u64, addr: u64, off: u64, size: u64) {
    put(v, at, &u32le(name));
    put(v, at + 4, &u32le(ty));
    put(v, at + 8, &u64le(flags));
    put(v, at + 16, &u64le(addr));
    put(v, at + 24, &u64le(off));
    put(v, at + 32, &u64le(size));
    put(v, at + 40, &[0u8; 24]);
}

const RELA_OFF: usize = 0x100;
const SYM_OFF: usize = 0x130;
const STR_OFF: usize = 0x160;

/// A small position-independent image: `.text` at 0x10000, `.data` at
/// 0x11000 with a pointer slot and a GOT slot, a `.bss` page, and a dynamic
/// section with one RELATIVE and one JUMP_SLOT relocation.
fn build_elf() -> Vec<u8> {
    let mut v = vec![0u8; 64];
    put(&mut v, 0, &[0x7f, b'E', b'L', b'F', 2, 1, 1, 0]);
    put(&mut v, 16, &u16le(3));
    put(&mut v, 18, &u16le(0xf3));
    put(&mut v, 20, &u32le(1));
    put(&mut v, 24, &u64le(0x10000));
    // .text contents
    put(&mut v, 0x40, &[0x13, 0, 0, 0, 0x73, 0, 0, 0, 1, 2, 3, 4, 5, 6, 7, 8]);
    // .data contents: two slots, zero
    put(&mut v, 0x50, &[0u8; 16]);
    // .dynamic
    let dyn_off = 0x60;
    let entries: [(u64, u64); 6] = [
        (7, RELA_OFF as u64),
        (8, 48),
        (9, 24),
        (6, SYM_OFF as u64),
        (5, STR_OFF as u64),
        (0, 0),
    ];
    for (i, (t, val)) in entries.iter().enumerate() {
        put(&mut v, dyn_off + 16 * i, &u64le(*t));
        put(&mut v, dyn_off + 16 * i + 8, &u64le(*val));
    }
    // RELA: RELATIVE slot at 0x11000 pointing into .text; JUMP_SLOT at 0x11008 for symbol 1.
    put(&mut v, RELA_OFF, &u64le(0x11000));
    put(&mut v, RELA_OFF + 8, &u64le(3));
    put(&mut v, RELA_OFF + 16, &u64le(0x10008));
    put(&mut v, RELA_OFF + 24, &u64le(0x11008));
    put(&mut v, RELA_OFF + 32, &u64le((1u64 << 32) | 5));
    put(&mut v, RELA_OFF + 40, &u64le(0));
    // dynsym: a null symbol and `kernel_meow`
    put(&mut v, SYM_OFF, &[0u8; 24]);
    put(&mut v, SYM_OFF + 24, &u32le(1));
    put(&mut v, SYM_OFF + 28, &[0x12, 0, 0, 0]);
    // dynstr
    put(&mut v, STR_OFF, b"\0kernel_meow\0");
    // shstrtab
    let shstr_off = 0x170;
    let names = b"\0.text\0.data\0.dynamic\0.shstrtab\0.bss\0";
    put(&mut v, shstr_off, names);
    let sh_off = 0x1a0;
    put(&mut v, 40, &u64le(sh_off as u64));
    put(&mut v, 52, &u16le(64));
    put(&mut v, 54, &u16le(56));
    put(&mut v, 58, &u16le(64));
    put(&mut v, 60, &u16le(6));
    put(&mut v, 62, &u16le(4));
    section(&mut v, sh_off, 0, 0, 0, 0, 0, 0);
    section(&mut v, sh_off + 64, 1, 1, 0x6, 0x10000, 0x40, 16);
    section(&mut v, sh_off + 128, 7, 1, 0x3, 0x11000, 0x50, 16);
    section(&mut v, sh_off + 192, 13, 6, 0, 0, dyn_off as u64, 96);
    section(&mut v, sh_off + 256, 22, 3, 0, 0, shstr_off as u64, names.len() as u64);
    section(&mut v, sh_off + 320, 32, 8, 0x3, 0x12000, 0, 0x1800);
    v
}

fn exports(l: &KernelLayout) -> Vec<ExportedMethod> {
    vec![
        ExportedMethod { name: b"kernel_meow".to_vec(), addr: l.text_vdso_start + 0x40 },
        ExportedMethod { name: b"putchar".to_vec(), addr: l.text_vdso_start + 0x80 },
    ]
}

#[test]
fn load_user_image() {
    let l = layout();
    let mut fa = allocator();
    let mut mem = PhysMem::new();
    let elf = build_elf();
    let p = Process::new_user(&elf, [7, 9], UserCaps::default(), &mut fa, &mut mem, &l, &exports(&l), 0x2, 0).unwrap();
    assert_eq!(p.tf.sepc, 0x10000);
    assert_eq!(p.tf.x[2], PROCESS_STACK_TOP);
    assert_eq!(p.tf.x[10], 7);
    assert_eq!(p.tf.x[11], 9);
    assert_eq!(p.tf.sstatus & SSTATUS_SPP, 0);
    assert_eq!(p.tf.sstatus & SSTATUS_SPIE, SSTATUS_SPIE);
    assert_eq!(p.tf.sstatus & 0x2, 0x2);
    let t = &p.mset.table;
    // .text is U|R|X with its bytes copied.
    let text = t.translate(VirtPageNum(0x10)).unwrap();
    assert_eq!(text.flags().bits & 0x1e, PTE_U | PTE_R | PTE_X);
    let pa = t.translate_addr(VirtAddr(0x10004)).unwrap();
    assert_eq!(mem.read_byte(pa.0), 0x73);
    // .data is U|R|W; .bss spans two pages.
    assert_eq!(t.translate(VirtPageNum(0x11)).unwrap().flags().bits & 0x1e, PTE_U | PTE_R | PTE_W);
    assert!(t.translate(VirtPageNum(0x13)).is_some());
    // vDSO text maps the kernel's vDSO pages; vDSO data is a zeroed page.
    let vd = t.translate(VirtAddr(VDSO_RESIDE).floor()).unwrap();
    assert_eq!(vd.ppn().0, l.text_vdso_start / 4096);
    assert_eq!(vd.flags().bits & 0x1e, PTE_U | PTE_R | PTE_X);
    let dpa = t.translate_addr(VirtAddr(VDSO_DATA)).unwrap();
    assert_eq!(mem.read_u64(dpa.0), 0);
    // The stack: 16 pages below the top.
    for v in (PROCESS_STACK_TOP / 4096 - 16)..(PROCESS_STACK_TOP / 4096) {
        assert_eq!(t.translate(VirtPageNum(v)).unwrap().flags().bits & 0x1e, PTE_U | PTE_R | PTE_W);
    }
    assert!(t.translate(VirtPageNum(PROCESS_STACK_TOP / 4096 - 17)).is_none());
    // The kernel template is there, without U.
    let k = t.translate(VirtPageNum(0x87f00)).unwrap();
    assert_eq!(k.ppn().0, 0x87f00);
    assert_eq!(k.flags().bits & 0x1e, PTE_R | PTE_X);
}

#[test]
fn relocation_of_relative() {
    let l = layout();
    let mut fa = allocator();
    let mut mem = PhysMem::new();
    let p = Process::new_user(&build_elf(), [0, 0], UserCaps::default(), &mut fa, &mut mem, &l, &exports(&l), 0, 0).unwrap();
    let slot = p.mset.table.translate_addr(VirtAddr(0x11000)).unwrap();
    assert_eq!(mem.read_u64(slot.0), 0x10008);
}

#[test]
fn relocation_of_jump_slot() {
    let l = layout();
    let mut fa = allocator();
    let mut mem = PhysMem::new();
    let p = Process::new_user(&build_elf(), [0, 0], UserCaps::default(), &mut fa, &mut mem, &l, &exports(&l), 0, 0).unwrap();
    let got = p.mset.table.translate_addr(VirtAddr(0x11008)).unwrap();
    assert_eq!(mem.read_u64(got.0), VDSO_RESIDE + 0x40);
}

#[test]
fn unknown_symbol_is_skipped() {
    let l = layout();
    let mut fa = allocator();
    let mut mem = PhysMem::new();
    let only_putchar = vec![ExportedMethod { name: b"putchar".to_vec(), addr: l.text_vdso_start }];
    let p = Process::new_user(&build_elf(), [0, 0], UserCaps::default(), &mut fa, &mut mem, &l, &only_putchar, 0, 0).unwrap();
    let got = p.mset.table.translate_addr(VirtAddr(0x11008)).unwrap();
    assert_eq!(mem.read_u64(got.0), 0);
}

#[test]
fn bad_image_is_refused() {
    let l = layout();
    let mut fa = allocator();
    let mut mem = PhysMem::new();
    let r = Process::new_user(b"not an elf", [0, 0], UserCaps::default(), &mut fa, &mut mem, &l, &exports(&l), 0, 0);
    assert!(matches!(r, Err(LoadError::BadElf)));
}

#[test]
fn kernel_process_runs_in_supervisor_mode() {
    let l = layout();
    let mut fa = allocator();
    let mut mem = PhysMem::new();
    let p = Process::new_kernel(0x87f0_0100, [1, 2], &mut fa, &mut mem, &l, 0, 0).unwrap();
    assert_eq!(p.tf.sepc, 0x87f0_0100);
    assert_eq!(p.tf.sstatus & SSTATUS_SPP, SSTATUS_SPP);
    assert_eq!((p.tf.x[10], p.tf.x[11]), (1, 2));
    let top = p.mset.table.translate(VirtPageNum(PROCESS_STACK_TOP / 4096 - 1)).unwrap();
    assert_eq!(top.flags().bits & 0x1e, PTE_R | PTE_W);
}

#[test]
fn kernel_template() {
    let l = layout();
    let mut fa = allocator();
    let mut mem = PhysMem::new();
    let ms = MemorySet::new_kernel(&mut fa, &mut mem, &l, UserCaps { serial: true }).unwrap();
    assert_eq!(ms.areas.len(), 5);
    let t = &ms.table;
    assert_eq!(t.translate(VirtPageNum(0x87f02)).unwrap().flags().bits & 0x1e, PTE_R);
    assert_eq!(t.translate(VirtPageNum(0x87f03)).unwrap().flags().bits & 0x1e, PTE_R | PTE_W);
    assert_eq!(t.translate(VirtPageNum(0x87fff)).unwrap().ppn().0, 0x87fff);
    assert!(t.translate(VirtPageNum(0x88000)).is_none());
    let serial = t.translate(VirtPageNum(0x10000)).unwrap();
    assert_eq!(serial.flags().bits & 0x1e, PTE_U | PTE_R | PTE_W);
    let plain = MemorySet::new_kernel(&mut fa, &mut mem, &l, UserCaps { serial: false }).unwrap();
    assert_eq!(plain.table.translate(VirtPageNum(0x10000)).unwrap().flags().bits & 0x1e, PTE_R | PTE_W);
}

#[test]
fn section_permissions() {
    assert_eq!(section_permission(0x2).bits, MAP_U | MAP_R);
    assert_eq!(section_permission(0x3).bits, MAP_U | MAP_R | MAP_W);
    assert_eq!(section_permission(0x6).bits, MAP_U | MAP_R | MAP_X);
}

#[test]
fn dynamic_section_parse() {
    let elf = build_elf();
    let d = Dynamic::parse(&elf, 0x60, 0x60 + 96).unwrap();
    match &d.rel {
        Some(RelTable::RELA(t)) => {
            assert_eq!(t.len(), 2);
            assert_eq!(t[0], Elf64RELA { offset: 0x11000, info: 3, addend: 0x10008 });
            assert_eq!(t[1].info, (1 << 32) | 5);
        }
        _ => panic!("no RELA table"),
    }
    let (sym, name) = d.resolve_sym(1).unwrap();
    assert_eq!(sym.name, 1);
    assert_eq!(sym.info, 0x12);
    assert_eq!(name, b"kernel_meow".to_vec());
    assert!(d.resolve_sym(100).is_none());
    assert_eq!(d.dynstr.as_ref().unwrap()[1], b'k');
}

#[test]
fn dynamic_section_errors() {
    let mut missing = vec![0u8; 48];
    missing[0] = 7;
    missing[8] = 16;
    assert!(!rela_sizes_present(&missing, 0, 48));
    assert!(rela_sizes_present(&build_elf(), 0x60, 0x60 + 96));
    let mut zero_ent = vec![0u8; 64];
    zero_ent[0] = 7;
    zero_ent[16] = 8;
    zero_ent[24] = 24;
    zero_ent[32] = 9;
    assert_eq!(Dynamic::parse(&zero_ent, 0, 64).err(), Some(DynamicError::ZeroRelaEnt));
    let mut oob = vec![0u8; 32];
    oob[0] = 5;
    oob[8] = 200;
    assert_eq!(Dynamic::parse(&oob, 0, 32).err(), Some(DynamicError::OutOfBounds));
    // A later entry wins; entries past DT_NULL are ignored.
    let mut later = vec![0u8; 64];
    later[0] = 5;
    later[8] = 1;
    later[16] = 5;
    later[24] = 2;
    later[48] = 5;
    later[56] = 60;
    let d = Dynamic::parse(&later, 0, 64).unwrap();
    assert_eq!(d.dynstr.unwrap().len(), 62);
    assert!(d.rel.is_none());
    assert!(d.dynsym.is_none());
}

fn one_page_table(fa: &mut FrameAllocator) -> PageTable {
    let mut pt = PageTable::new(fa).unwrap();
    pt.map(fa, VirtPageNum(0x11), channel_os::addr::PhysPageNum(0x90000), PTEFlags { bits: PTE_R | PTE_W }).unwrap();
    pt
}

#[test]
fn relocation_errors() {
    let l = layout();
    let mut fa = allocator();
    let pt = one_page_table(&mut fa);
    let mut mem = PhysMem::new();
    let d = Dynamic { rel: None, dynsym: None, dynstr: None };
    let ex = exports(&l);
    let bad_type = Elf64RELA { offset: 0x11000, info: 7, addend: 0 };
    assert_eq!(relocate_one(&pt, &mut mem, &bad_type, &d, &ex, l.text_vdso_start, l.text_vdso_end), Err(RelocError::Unsupported(7)));
    let unmapped = Elf64RELA { offset: 0x50000, info: 3, addend: 1 };
    assert_eq!(relocate_one(&pt, &mut mem, &unmapped, &d, &ex, l.text_vdso_start, l.text_vdso_end), Err(RelocError::Unmapped(0x50000)));
    let no_sym = Elf64RELA { offset: 0x11000, info: (3 << 32) | 5, addend: 0 };
    assert_eq!(relocate_one(&pt, &mut mem, &no_sym, &d, &ex, l.text_vdso_start, l.text_vdso_end), Err(RelocError::BadSymbol(3)));
    let rel = Dynamic { rel: Some(RelTable::REL(vec![])), dynsym: None, dynstr: None };
    assert_eq!(apply_relocations(&pt, &mut mem, &rel, &ex, l.text_vdso_start, l.text_vdso_end), Err(RelocError::RelTable));
    let ok = Elf64RELA { offset: 0x11010, info: 3, addend: 0xdead_beef };
    relocate_one(&pt, &mut mem, &ok, &d, &ex, l.text_vdso_start, l.text_vdso_end).unwrap();
    assert_eq!(mem.read_u64(0x9000_0010), 0xdead_beef);
}

#[test]
fn later_relocation_wins() {
    let l = layout();
    let mut fa = allocator();
    let pt = one_page_table(&mut fa);
    let mut mem = PhysMem::new();
    let t = vec![
        Elf64RELA { offset: 0x11000, info: 3, addend: 1 },
        Elf64RELA { offset: 0x11000, info: 3, addend: 2 },
    ];
    let d = Dynamic {
        rel: Some(RelTable::RELA(t)),
        dynsym: Some(vec![Sym { name: 0, info: 0, other: 0, shndx: 0, value: 0, size: 0 }]),
        dynstr: Some(vec![0]),
    };
    apply_relocations(&pt, &mut mem, &d, &exports(&l), l.text_vdso_start, l.text_vdso_end).unwrap();
    assert_eq!(mem.read_u64(0x9000_0000), 2);
}

#[test]
fn request_service_maps_pages_into_both_processes() {
    let l = layout();
    let mut fa = allocator();
    let mut mem = PhysMem::new();
    let caller = Process::new_user(&build_elf(), [0, 0], UserCaps::default(), &mut fa, &mut mem, &l, &exports(&l), 0, 0).unwrap();
    let mut k = Kernel::new(fa, mem, l, exports(&l), vec![build_elf()]);
    assert_eq!(k.sched.push(caller), 1);
    let (_, mut tf) = k.bootstrap().unwrap();
    tf.set_args(3, 0);
    let (req, resp) = match k.syscall(&mut tf, 0, 8) {
        Ok(SyscallOutcome::ServiceMapped(req, resp)) => (req, resp),
        other => panic!("unexpected {:?}", other),
    };
    assert_ne!(req, resp);
    assert_eq!((tf.x[10], tf.x[11]), (SERVICE_REQ_VA, SERVICE_RESP_VA));
    assert_eq!(tf.sepc, 0x10004);
    let me = k.sched.running_process().unwrap();
    let r = me.mset.table.translate(VirtAddr(SERVICE_REQ_VA).floor()).unwrap();
    assert_eq!(r.ppn().0, req);
    assert_eq!(r.flags().bits & 0x1e, PTE_U | PTE_R | PTE_W);
    assert_eq!(me.mset.table.translate(VirtAddr(SERVICE_RESP_VA).floor()).unwrap().ppn().0, resp);
    // The helper is ready, with the same pages and its arguments.
    let mut tf2 = tf;
    k.sched.tick(true, &mut tf2).unwrap();
    assert_eq!(k.sched.running_id(), 2);
    assert_eq!((tf2.x[10], tf2.x[11]), (SERVICE_REQ_VA, SERIAL_BASE));
    let helper = k.sched.running_process().unwrap();
    assert_eq!(helper.mset.table.translate(VirtAddr(SERVICE_REQ_VA).floor()).unwrap().ppn().0, req);
    assert_eq!(helper.mset.table.translate(VirtAddr(SERVICE_RESP_VA).floor()).unwrap().ppn().0, resp);
    // The helper may use the serial port.
    let serial = helper.mset.table.translate(VirtPageNum(SERIAL_BASE / 4096)).unwrap();
    assert_eq!(serial.flags().bits & PTE_U, PTE_U);
    // The shared pages start zeroed.
    for off in (0..4096u64).step_by(8) {
        assert_eq!(k.mem.read_u64(req * 4096 + off), 0);
        assert_eq!(k.mem.read_u64(resp * 4096 + off), 0);
    }
}

#[test]
fn misaligned_section_table_is_refused() {
    let l = layout();
    let mut fa = allocator();
    let mut mem = PhysMem::new();
    let mut elf = build_elf();
    elf[40] = 0xa4;
    let r = Process::new_user(&elf, [0, 0], UserCaps::default(), &mut fa, &mut mem, &l, &exports(&l), 0, 0);
    assert!(matches!(r, Err(LoadError::MisalignedSectionTable)));
}

#[test]
fn unsupported_relocation_fails_the_load() {
    let l = layout();
    let mut fa = allocator();
    let mut mem = PhysMem::new();
    let mut elf = build_elf();
    elf[RELA_OFF + 8] = 7;
    let r = Process::new_user(&elf, [0, 0], UserCaps::default(), &mut fa, &mut mem, &l, &exports(&l), 0, 0);
    assert!(matches!(r, Err(LoadError::Reloc(RelocError::Unsupported(7)))));
}

#[test]
fn overlapping_sections_fail_the_load() {
    let l = layout();
    let mut fa = allocator();
    let mut mem = PhysMem::new();
    let mut elf = build_elf();
    // Move .data onto the .text page.
    let sh = 0x1a0 + 128;
    elf[sh + 16..sh + 24].copy_from_slice(&0x10800u64.to_le_bytes());
    let r = Process::new_user(&elf, [0, 0], UserCaps::default(), &mut fa, &mut mem, &l, &exports(&l), 0, 0);
    assert!(matches!(r, Err(LoadError::Memory(channel_os::paging::PagingError::AlreadyMapped))));
}

#[test]
fn vdso_data_page_is_zeroed_and_writable() {
    let l = layout();
    let mut fa = allocator();
    let mut mem = PhysMem::new();
    let p = Process::new_user(&build_elf(), [0, 0], UserCaps::default(), &mut fa, &mut mem, &l, &exports(&l), 0, 0).unwrap();
    let e = p.mset.table.translate(VirtAddr(VDSO_DATA).floor()).unwrap();
    assert_eq!(e.flags().bits & 0x1e, PTE_U | PTE_R | PTE_W);
    let pa = p.mset.table.translate_addr(VirtAddr(VDSO_DATA)).unwrap();
    for off in (0..4096u64).step_by(8) {
        assert_eq!(mem.read_u64(pa.0 + off), 0);
    }
}

#[test]
fn dynamic_section_without_rela_sizes_fails_the_load() {
    let l = layout();
    let mut fa = allocator();
    let mut mem = PhysMem::new();
    let mut elf = build_elf();
    // Turn DT_RELASZ into an unknown tag.
    elf[0x60 + 16] = 0x42;
    let r = Process::new_user(&elf, [0, 0], UserCaps::default(), &mut fa, &mut mem, &l, &exports(&l), 0, 0);
    assert!(matches!(r, Err(LoadError::Dynamic(DynamicError::MissingRelaSize))));
}
