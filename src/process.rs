//! Processes: an address space and the trap frame that starts it. User
//! processes are loaded from ELF images, kernel processes start at a kernel
//! function.
use vstd::prelude::*;
use elf_rs::ElfFile;
use crate::addr::{PhysAddr, VirtAddr, VirtPageNum};
use crate::consts::{PROCESS_STACK_PAGES, PROCESS_STACK_TOP, VDSO_DATA, VDSO_RESIDE};
use crate::elf::{Dynamic, DynamicError, RelTable, dynamic_error, parsed_from};
use crate::frame::FrameAllocator;
use crate::paging::PagingError;
use crate::physmem::{PhysMem, le_bytes, lemma_u64_round_trip};
use crate::reloc::{
    ExportedMethod, RelocError, apply_relocations, exports_view, exports_wf, reloc_ok_in, lemma_reloc_ok_in,
};
use crate::set::{
    kernel_mapping, KernelLayout, MAP_R, MAP_U, MAP_W, MAP_X, MapArea, MapPermission, MapTarget, MemorySet, UserCaps,
};
use crate::trap::{SSTATUS_SPIE, SSTATUS_SPP, TrapFrame};

verus! {

/// Section flags of the ELF format.
pub const SHF_WRITE: u64 = 0x1;

pub const SHF_ALLOC: u64 = 0x2;

pub const SHF_EXECINSTR: u64 = 0x4;

#[verifier::external_type_specification]
#[verifier::external_body]
pub struct ExElfError(elf_rs::Error);

/// A section header, as the loader reads it.
pub struct SectionHeader {
    pub name: Option<Vec<u8>>,
    /// The section occupies no bytes of the file (`SHT_NOBITS`).
    pub nobits: bool,
    pub flags: u64,
    pub addr: u64,
    pub offset: u64,
    pub size: u64,
}

pub open spec fn header_view(h: SectionHeader) -> (Option<Seq<u8>>, bool, u64, u64, u64, u64) {
    (
        match h.name {
            Some(n) => Some(n@),
            None => None,
        },
        h.nobits,
        h.flags,
        h.addr,
        h.offset,
        h.size,
    )
}

pub open spec fn headers_view(v: Seq<SectionHeader>) -> Seq<(Option<Seq<u8>>, bool, u64, u64, u64, u64)> {
    v.map_values(|h: SectionHeader| header_view(h))
}

/// The section headers of a 64-bit ELF image, in file order, as `elf_rs`
/// reads them; `None` when it does not take the image.
pub uninterp spec fn elf_section_table(b: Seq<u8>) -> Option<Seq<(Option<Seq<u8>>, bool, u64, u64, u64, u64)>>;

/// The entry point of a 64-bit ELF image, as `elf_rs` reads it.
pub uninterp spec fn elf_entry_point(b: Seq<u8>) -> Option<u64>;

/// The section table lies at a multiple of 8 in the image (or the image is
/// too short to name one): `e_shoff`, the little-endian word at 0x28.
pub open spec fn shoff_aligned(b: Seq<u8>) -> bool {
    b.len() < 0x30 || crate::elf::word(b, 0x28) % 8 == 0
}

/// Relies on `elf_rs::Elf64::from_bytes`, `ElfFile::entry_point` and the
/// section-header iterator: the entry point and, for each header, name,
/// type, flags, address, offset and size, all of which depend on the bytes
/// alone. `elf_rs` reads the header and the section table in place as
/// 8-aligned records, so the image is first copied to 8-aligned storage and
/// the section table must start at a multiple of 8.
#[verifier::external_body]
fn read_elf(elf: &[u8]) -> (r: Result<(u64, Vec<SectionHeader>), elf_rs::Error>)
    requires
        shoff_aligned(elf@),
    ensures
        (r is Ok <==> elf_section_table(elf@) is Some),
        (r is Ok <==> elf_entry_point(elf@) is Some),
        (r matches Ok((e, v)) ==> elf_entry_point(elf@) == Some(e)
            && elf_section_table(elf@) == Some(headers_view(v@))),
{
    let mut buf = vec![0u8; elf.len() + 8];
    let off = (8 - buf.as_ptr() as usize % 8) % 8;
    buf[off..off + elf.len()].copy_from_slice(elf);
    let e = elf_rs::Elf64::from_bytes(&buf[off..off + elf.len()])?;
    Ok((e.entry_point(), e.section_header_iter().map(|h| SectionHeader {
        name: h.section_name().map(|n| n.to_vec()),
        nobits: h.sh_type() == elf_rs::SectionType::SHT_NOBITS,
        flags: h.flags().bits(),
        addr: h.addr(),
        offset: h.offset(),
        size: h.size(),
    }).collect()))
}

/// Why a process could not be created.
#[derive(Clone, Copy, PartialEq, Eq, Structural, Debug)]
pub enum LoadError {
    /// `elf_rs` does not take the image.
    BadElf,
    /// The section table does not start at a multiple of 8.
    MisalignedSectionTable,
    /// A section lies outside the image or outside user space, or is empty.
    BadSection,
    Dynamic(DynamicError),
    Memory(PagingError),
    Reloc(RelocError),
}

pub struct Process {
    pub mset: MemorySet,
    pub tf: TrapFrame,
}

/// `U | R`, with `W` and `X` as the section flags ask.
pub open spec fn section_perm(flags: u64) -> u8 {
    (MAP_U | MAP_R | (if flags & SHF_WRITE != 0 {
        MAP_W
    } else {
        0
    }) | (if flags & SHF_EXECINSTR != 0 {
        MAP_X
    } else {
        0
    })) as u8
}

pub fn section_permission(flags: u64) -> (r: MapPermission)
    ensures
        r.bits == section_perm(flags),
        r.bits & 0xe1 == 0,
{
    let mut bits = MAP_U | MAP_R;
    if flags & SHF_WRITE != 0 {
        bits = bits | MAP_W;
    }
    if flags & SHF_EXECINSTR != 0 {
        bits = bits | MAP_X;
    }
    assert(forall|w: u8, x: u8| (w == 0 || w == 4) && (x == 0 || x == 8) ==> #[trigger] (16u8 | 2u8 | w | x) & 0xe1u8 == 0u8) by (bit_vector);
    assert(forall|w: u8| (w == 0 || w == 4) ==> #[trigger] (16u8 | 2u8 | w | 0u8) == (16u8 | 2u8 | w)) by (bit_vector);
    assert((16u8 | 2u8 | 0u8) == (16u8 | 2u8)) by (bit_vector);
    MapPermission { bits }
}

/// The name `.dynamic`.
pub open spec fn dynamic_name() -> Seq<u8> {
    seq![46u8, 100u8, 121u8, 110u8, 97u8, 109u8, 105u8, 99u8]
}

fn starts_with_dynamic(n: &Vec<u8>) -> (r: bool)
    ensures
        r == (n@.len() >= 8 && n@.subrange(0, 8) == dynamic_name()),
{
    let pat: [u8; 8] = [46, 100, 121, 110, 97, 109, 105, 99];
    if n.len() < 8 {
        return false;
    }
    let mut i: usize = 0;
    while i < 8
        invariant
            i <= 8,
            n@.len() >= 8,
            pat@ == dynamic_name(),
            forall|k: int| 0 <= k < i ==> n@[k] == pat@[k],
        decreases 8 - i,
    {
        if n[i] != pat[i] {
            assert(n@.subrange(0, 8)[i as int] != pat@[i as int]);
            return false;
        }
        i = i + 1;
    }
    assert(n@.subrange(0, 8) =~= pat@);
    true
}

/// The leaves that the vDSO text window gives every user process: page
/// `i` of the window maps to page `i` of the kernel's vDSO text, `U | R | X`.
pub open spec fn vdso_leaf(layout: KernelLayout, v: int) -> crate::paging::PTE {
    crate::paging::PTE {
        bits: crate::paging::pte_bits(
            (layout.text_vdso_start / 4096 + (v - VDSO_RESIDE / 4096)) as u64,
            (MAP_U | MAP_R | MAP_X) | crate::paging::PTE_V,
        ),
    }
}

pub open spec fn in_vdso_window(layout: KernelLayout, v: int) -> bool {
    VDSO_RESIDE / 4096 <= v < VDSO_RESIDE / 4096 + (crate::addr::page_ceil(layout.text_vdso_end as int)
        - layout.text_vdso_start / 4096)
}

pub open spec fn in_stack(v: int) -> bool {
    PROCESS_STACK_TOP / 4096 - PROCESS_STACK_PAGES <= v < PROCESS_STACK_TOP / 4096
}

/// Every mapping of `a` is in `b`, unchanged.
pub open spec fn keeps(a: Map<int, crate::paging::PTE>, b: Map<int, crate::paging::PTE>) -> bool {
    forall|v: int| #[trigger] a.contains_key(v) ==> b.contains_key(v) && b[v] == a[v]
}

/// Maps one allocatable section as a framed area and copies its file
/// contents; records the dynamic section when the header names it.
fn load_section(
    mset: &mut MemorySet,
    frames: &mut FrameAllocator,
    mem: &mut PhysMem,
    elf: &[u8],
    h: &SectionHeader,
    dynamic: &mut Option<Dynamic>,
) -> (r: Result<(), LoadError>)
    requires
        old(mset).wf(),
        old(frames)@.wf(),
        old(mem).wf(),
        old(mset).lent_from(old(frames)@),
    ensures
        final(mset).wf(),
        final(frames)@.wf(),
        final(mem).wf(),
        final(mset).lent_from(final(frames)@),
        forall|p: u64| #[trigger] old(frames)@.lent(p) ==> final(frames)@.lent(p),
        keeps(old(mset).table.mapping(), final(mset).table.mapping()),
        r != Err::<(), LoadError>(LoadError::BadElf),
        r != Err::<(), LoadError>(LoadError::MisalignedSectionTable),
        (section_ok(elf@, header_view(*h)) && (forall|v: int| #[trigger] in_section(header_view(*h), v)
            ==> !old(mset).table.mapping().contains_key(v)) && old(frames)@.available() >= 3 * section_pages(
            header_view(*h),
        ) ==> r is Ok),
        (r is Ok ==> forall|v: int| #[trigger] final(mset).table.mapping().contains_key(v) <==> (old(
            mset,
        ).table.mapping().contains_key(v) || in_section(header_view(*h), v))),
        (r is Ok ==> final(frames)@.available() >= old(frames)@.available() - 3 * section_pages(header_view(*h))),
        (r is Ok ==> forall|v: int| #[trigger] in_section(header_view(*h), v) ==> crate::paging::pte_flags(
            final(mset).table.mapping()[v].bits,
        ) == section_perm(h.flags) | crate::paging::PTE_V),
        (r is Ok && is_dynamic(header_view(*h)) ==> (*final(dynamic) matches Some(d) && parsed_from(
            d,
            elf@,
            h.offset as int,
            h.offset + h.size,
        ))),
        (r is Ok && !is_dynamic(header_view(*h)) ==> *final(dynamic) == *old(dynamic)),
        (r is Ok ==> section_bytes_hold(elf@, header_view(*h), final(mset).table.mapping(), *final(mem))),
        (r is Ok ==> forall|v: int| #[trigger] in_section(header_view(*h), v) ==> final(frames)@.lent(
            frame_of(final(mset).table.mapping(), v) as u64,
        ) && frame_of(final(mset).table.mapping(), v) < 0x1000_0000_0000),
        (r is Ok ==> forall|q: int| 0 <= q && !old(frames)@.holds(q / 4096) ==> #[trigger] final(mem).byte(q) == old(
            mem,
        ).byte(q)),
{
    let ghost hv = header_view(*h);
    let ghost m0 = mset.table.mapping();
    let ghost a0 = frames@;
    let ghost mem0 = *mem;
    let len = elf.len() as u64;
    match &h.name {
        Some(n) => {
            if starts_with_dynamic(n) {
                if h.offset > len || h.size > len - h.offset {
                    return Err(LoadError::BadSection);
                }
                if !crate::elf::rela_sizes_present(elf, h.offset as usize, (h.offset + h.size) as usize) {
                    return Err(LoadError::Dynamic(DynamicError::MissingRelaSize));
                }
                match Dynamic::parse(elf, h.offset as usize, (h.offset + h.size) as usize) {
                    Ok(d) => {
                        *dynamic = Some(d);
                    },
                    Err(e) => {
                        return Err(LoadError::Dynamic(e));
                    },
                }
            }
        },
        None => {},
    }
    if h.flags & SHF_ALLOC == 0 {
        proof {
            assert forall|v: int| #[trigger] mset.table.mapping().contains_key(v) <==> (m0.contains_key(v) || in_section(hv, v)) by {}
        }
        return Ok(());
    }
    if h.size == 0 || h.addr >= 0x80_0000_0000 || h.size > 0x80_0000_0000 - h.addr {
        return Err(LoadError::BadSection);
    }
    let src: Option<&[u8]> = if h.nobits {
        None
    } else {
        if h.offset > len || h.size > len - h.offset {
            return Err(LoadError::BadSection);
        }
        Some(&elf[h.offset as usize..(h.offset + h.size) as usize])
    };
    let start = VirtAddr(h.addr).floor();
    let end = VirtAddr(h.addr + h.size).ceil();
    let perm = section_permission(h.flags);
    let area = MapArea::frames(start, end, perm);
    proof {
        assert forall|v: int| #[trigger] area.in_range(v) implies area.ready_for(v) by {
            if let MapTarget::Framed { frames: fl } = area.target {
                assert(fl.len() == 0);
            }
        }
    }
    let ghost ar = area;
    let r = mset.push(frames, mem, area, src);
    proof {
        assert forall|v: int| #[trigger] ar.in_range(v) <==> in_section(hv, v) by {}
        if r is Err {
            if section_ok(elf@, hv) && (forall|v: int| #[trigger] in_section(hv, v) ==> !m0.contains_key(v)) && a0.available()
                >= 3 * section_pages(hv) {
                assert forall|v: int| #[trigger] ar.in_range(v) implies !m0.contains_key(v) by {}
            }
        } else {
            let added = mset.areas().last();
            assert forall|v: int| #[trigger] mset.table.mapping().contains_key(v) <==> (m0.contains_key(v) || in_section(hv, v)) by {
                assert(added.in_range(v) == ar.in_range(v));
            }
            assert forall|v: int| #[trigger] in_section(hv, v) implies crate::paging::pte_flags(
                mset.table.mapping()[v].bits,
            ) == section_perm(h.flags) | crate::paging::PTE_V by {
                assert(added.in_range(v));
                assert(mset.areas()[mset.areas().len() - 1] == added);
                added.lemma_target_bound(v);
                crate::paging::lemma_pte_fields(added.target_of(v).unwrap(), perm.bits | crate::paging::PTE_V);
            }
            let m = mset.table.mapping();
            assert forall|v: int| #[trigger] in_section(hv, v) implies frames@.lent(frame_of(m, v) as u64)
                && frame_of(m, v) < 0x1000_0000_0000 by {
                assert(added.in_range(v));
                assert(ar.in_range(v));
                added.lemma_target_bound(v);
                crate::paging::lemma_pte_fields(added.target_of(v).unwrap(), perm.bits | crate::paging::PTE_V);
            }
            assert forall|q: int| 0 <= q && !a0.holds(q / 4096) implies #[trigger] mem.byte(q) == mem0.byte(q) by {
                if src is Some {
                    assert forall|i: int| 0 <= i < added.vpn_end.0 - added.vpn_start.0 implies !(added.target_of(
                        added.vpn_start.0 + i,
                    ).unwrap() * 4096 <= q < #[trigger] added.target_of(added.vpn_start.0 + i).unwrap() * 4096 + 4096) by {
                        let v = added.vpn_start.0 + i;
                        assert(ar.in_range(v));
                        let t = added.target_of(v).unwrap() as int;
                        if t * 4096 <= q < t * 4096 + 4096 {
                            assert(q / 4096 == t);
                        }
                    }
                }
            }
            if !h.nobits {
                let d = src.unwrap()@;
                assert(d == elf@.subrange(h.offset as int, h.offset + h.size));
                assert forall|j: int, off: int| 0 <= j && 0 <= off < 4096 && j * 4096 + off < h.size implies mem.byte(
                    #[trigger] section_addr(m, hv, j, off),
                ) == elf@[h.offset + j * 4096 + off] by {
                    let lo = h.addr as int / 4096;
                    assert(j < added.vpn_end.0 - added.vpn_start.0) by (nonlinear_arith)
                        requires
                            added.vpn_end.0 == crate::addr::page_ceil(h.addr + h.size),
                            added.vpn_start.0 == lo,
                            lo == h.addr as int / 4096,
                            j * 4096 + off < h.size,
                            0 <= off,
                            0 <= j,
                    ;
                    let v = lo + j;
                    assert(ar.in_range(v));
                    added.lemma_target_bound(v);
                    crate::paging::lemma_pte_fields(added.target_of(v).unwrap(), perm.bits | crate::paging::PTE_V);
                    assert(frame_of(m, v) == added.target_of(v).unwrap());
                    assert(d[j * 4096 + off] == elf@[h.offset + j * 4096 + off]);
                }
            }
        }
    }
    match r {
        Ok(()) => Ok(()),
        Err(e) => Err(LoadError::Memory(e)),
    }
}

/// Pushes a fresh framed area over pages `[start, end)`, optionally filled
/// with `data`.
fn push_framed(
    mset: &mut MemorySet,
    frames: &mut FrameAllocator,
    mem: &mut PhysMem,
    start: VirtPageNum,
    end: VirtPageNum,
    perm: MapPermission,
    data: Option<&[u8]>,
) -> (r: Result<(), LoadError>)
    requires
        old(mset).wf(),
        old(frames)@.wf(),
        old(mem).wf(),
        old(mset).lent_from(old(frames)@),
        start.0 <= end.0 <= 0x800_0000,
        perm.bits & 0xe1 == 0,
    ensures
        final(mset).wf(),
        final(frames)@.wf(),
        final(mem).wf(),
        final(mset).lent_from(final(frames)@),
        forall|p: u64| #[trigger] old(frames)@.lent(p) ==> final(frames)@.lent(p),
        keeps(old(mset).table.mapping(), final(mset).table.mapping()),
        r != Err::<(), LoadError>(LoadError::BadElf),
        r != Err::<(), LoadError>(LoadError::MisalignedSectionTable),
        ((forall|v: int| start.0 <= v < end.0 ==> !#[trigger] old(mset).table.mapping().contains_key(v))
            && old(frames)@.available() >= 3 * (end.0 - start.0) ==> r is Ok),
        (r is Ok ==> final(frames)@.available() >= old(frames)@.available() - 3 * (end.0 - start.0)),
        (r is Ok ==> final(mset).table.mapping() == old(mset).table.mapping().union_prefer_right(
            final(mset).areas().last().area_mapping())),
        (r is Ok ==> final(mset).areas().last().vpn_start == start && final(mset).areas().last().vpn_end == end),
        (r is Ok ==> final(mset).areas().last().target is Framed),
        (r is Ok && data is None ==> *final(mem) == *old(mem)),
        (r is Ok && start.0 < end.0 && data is Some ==> forall|off: int| 0 <= off < 4096 && off < data.unwrap()@.len()
            ==> (#[trigger] final(mem).byte(frame_of(final(mset).table.mapping(), start.0 as int) * 4096 + off)) == data.unwrap()@[off]),
        (r is Ok ==> forall|q: int| 0 <= q && !old(frames)@.holds(q / 4096) ==> #[trigger] final(mem).byte(q) == old(
            mem,
        ).byte(q)),
        (r is Ok ==> forall|v: int| start.0 <= v < end.0 ==> #[trigger] final(mset).table.mapping().contains_key(v)
            && crate::paging::pte_flags(final(mset).table.mapping()[v].bits) == perm.bits | crate::paging::PTE_V),
{
    let area = MapArea::frames(start, end, perm);
    proof {
        assert forall|v: int| #[trigger] area.in_range(v) implies area.ready_for(v) by {
            if let MapTarget::Framed { frames: fl } = area.target {
                assert(fl.len() == 0);
            }
        }
    }
    let ghost a0 = frames@;
    let ghost mem0 = *mem;
    let r = mset.push(frames, mem, area, data);
    proof {
        if r is Ok {
            let added = mset.areas().last();
            if start.0 < end.0 && data is Some {
                let v = start.0 as int;
                assert(area.in_range(v));
                assert(added.in_range(v));
                assert(mset.areas()[mset.areas().len() - 1] == added);
                added.lemma_target_bound(v);
                crate::paging::lemma_pte_fields(added.target_of(v).unwrap(), perm.bits | crate::paging::PTE_V);
                assert(frame_of(mset.table.mapping(), v) == added.target_of(v).unwrap());
                assert forall|off: int| 0 <= off < 4096 && off < data.unwrap()@.len() implies #[trigger] mem.byte(
                    frame_of(mset.table.mapping(), v) * 4096 + off,
                ) == data.unwrap()@[off] by {
                    assert(added.target_of(added.vpn_start.0 + 0) == added.target_of(v));
                }
            }
            assert forall|q: int| 0 <= q && !a0.holds(q / 4096) implies #[trigger] mem.byte(q) == mem0.byte(q) by {
                if data is Some {
                    assert forall|i: int| 0 <= i < added.vpn_end.0 - added.vpn_start.0 implies !(added.target_of(
                        added.vpn_start.0 + i,
                    ).unwrap() * 4096 <= q < #[trigger] added.target_of(added.vpn_start.0 + i).unwrap() * 4096 + 4096) by {
                        let v = added.vpn_start.0 + i;
                        assert(area.in_range(v));
                        let t = added.target_of(v).unwrap() as int;
                        if t * 4096 <= q < t * 4096 + 4096 {
                            assert(q / 4096 == t);
                        }
                    }
                }
            }
        }
        if !(r is Ok) {
            assert(!((forall|v: int| start.0 <= v < end.0 ==> !#[trigger] old(mset).table.mapping().contains_key(v))
                && old(frames)@.available() >= 3 * (end.0 - start.0))) by {
                if (forall|v: int| start.0 <= v < end.0 ==> !#[trigger] old(mset).table.mapping().contains_key(v)) {
                    assert forall|v: int| #[trigger] area.in_range(v) implies !old(mset).table.mapping().contains_key(v) by {}
                }
            }
        }
        if r is Ok {
            let added = mset.areas().last();
            assert forall|v: int| start.0 <= v < end.0 implies #[trigger] mset.table.mapping().contains_key(v)
                && crate::paging::pte_flags(mset.table.mapping()[v].bits) == perm.bits | crate::paging::PTE_V by {
                assert(added.in_range(v));
                assert(mset.areas()[mset.areas().len() - 1] == added);
                added.lemma_target_bound(v);
                crate::paging::lemma_pte_fields(added.target_of(v).unwrap(), perm.bits | crate::paging::PTE_V);
            }
        }
    }
    match r {
        Ok(()) => Ok(()),
        Err(e) => Err(LoadError::Memory(e)),
    }
}

impl Process {
    /// Loads a user process: the kernel template, each allocatable section
    /// (`U | R`, `W` and `X` as flagged, file contents copied), the shared
    /// vDSO text, a zeroed vDSO data page, the relocations of the dynamic
    /// section, and a 16-page stack; it starts at the image's entry point in
    /// user mode with `data` in `a0` and `a1`.
    pub fn new_user(
        elf: &[u8],
        data: [u64; 2],
        caps: UserCaps,
        frames: &mut FrameAllocator,
        mem: &mut PhysMem,
        layout: &KernelLayout,
        exports: &Vec<ExportedMethod>,
        sstatus: u64,
        scause: u64,
    ) -> (r: Result<Process, LoadError>)
        requires
            old(frames)@.wf(),
            old(mem).wf(),
            layout.wf(),
            exports_wf(exports_view(exports@), layout.text_vdso_start, layout.text_vdso_end),
        ensures
            final(frames)@.wf(),
            final(mem).wf(),
            forall|p: u64| #[trigger] old(frames)@.lent(p) ==> final(frames)@.lent(p),
            (r == Err::<Process, LoadError>(LoadError::MisalignedSectionTable)) <==> !shoff_aligned(elf@),
            (r == Err::<Process, LoadError>(LoadError::BadElf)) <==> (shoff_aligned(elf@) && elf_section_table(elf@) is None),
            (user_image_loads(elf@, *layout, caps, exports_view(exports@), old(frames)@.available()) ==> r is Ok),
            (r is Ok ==> final(frames)@.available() >= old(frames)@.available() - user_process_frames(
                *layout,
                elf_section_table(elf@).unwrap(),
            )),
            (r is Ok ==> forall|d: Dynamic| #[trigger] parsed_last_dynamic(d, elf@, elf_section_table(elf@).unwrap())
                ==> relocs_supported(d)),
            (r matches Ok(p) ==> forall|d: Dynamic| #[trigger] parsed_last_dynamic(d, elf@, elf_section_table(elf@).unwrap())
                ==> crate::reloc::slots_hold(d, p.mset.table.mapping(), *final(mem), exports_view(exports@), layout.text_vdso_start)),
            (r matches Ok(p) ==> p.mset.table.mapping().contains_key(VDSO_DATA as int / 4096) && crate::paging::pte_flags(
                p.mset.table.mapping()[VDSO_DATA as int / 4096].bits,
            ) == (MAP_U | MAP_R | MAP_W) | crate::paging::PTE_V),
            (r matches Ok(p) ==> forall|i: int, v: int|
                0 <= i < elf_section_table(elf@).unwrap().len() && #[trigger] in_section(elf_section_table(elf@).unwrap()[i], v)
                    ==> crate::paging::pte_flags(p.mset.table.mapping()[v].bits) == section_perm(
                    elf_section_table(elf@).unwrap()[i].2,
                ) | crate::paging::PTE_V),
            (r matches Ok(p) ==> forall|off: int|
                0 <= off < 4096 && untouched_by_relocs(elf@, elf_section_table(elf@).unwrap(), p.mset.table.mapping(), exports_view(exports@),
                    layout.text_vdso_start, frame_of(p.mset.table.mapping(), VDSO_DATA as int / 4096) * 4096 + off) ==> #[trigger] final(mem).byte(
                    frame_of(p.mset.table.mapping(), VDSO_DATA as int / 4096) * 4096 + off,
                ) == 0),
            (r matches Ok(p) ==> forall|i: int, j: int, off: int|
                0 <= i < elf_section_table(elf@).unwrap().len() && 0 <= j && 0 <= off < 4096 && j * 4096 + off
                    < elf_section_table(elf@).unwrap()[i].5 && is_alloc(elf_section_table(elf@).unwrap()[i])
                    && !elf_section_table(elf@).unwrap()[i].1 && untouched_by_relocs(elf@, elf_section_table(elf@).unwrap(), p.mset.table.mapping(), exports_view(
                    exports@,
                ), layout.text_vdso_start, section_addr(p.mset.table.mapping(), elf_section_table(elf@).unwrap()[i], j, off))
                    ==> final(mem).byte(#[trigger] section_addr(p.mset.table.mapping(), elf_section_table(elf@).unwrap()[i], j, off))
                    == elf@[elf_section_table(elf@).unwrap()[i].4 + j * 4096 + off]),
            (r matches Ok(p) ==> forall|v: int| #[trigger] p.mset.table.mapping().contains_key(v) <==> (user_domain(
                *layout,
                caps,
                elf_section_table(elf@).unwrap(),
                v,
            ) || in_stack(v))),
            (r matches Ok(p) ==> {
                &&& p.mset.wf()
                &&& p.mset.lent_from(final(frames)@)
                &&& elf_entry_point(elf@) == Some(p.tf.sepc)
                &&& p.tf.x@[2] == PROCESS_STACK_TOP
                &&& p.tf.x@[10] == data@[0]
                &&& p.tf.x@[11] == data@[1]
                &&& p.tf.sstatus & SSTATUS_SPP == 0
                &&& p.tf.sstatus & SSTATUS_SPIE == SSTATUS_SPIE
                &&& forall|v: int| #[trigger] in_vdso_window(*layout, v) ==> p.mset.table.mapping().contains_key(v)
                    && p.mset.table.mapping()[v] == vdso_leaf(*layout, v)
                &&& forall|v: int| #[trigger] in_stack(v) ==> p.mset.table.mapping().contains_key(v)
                    && crate::paging::pte_flags(p.mset.table.mapping()[v].bits) == (MAP_U | MAP_R | MAP_W) | crate::paging::PTE_V
            }),
    {
        if elf.len() >= 0x30 && crate::elf::read_word(elf, 0x28) % 8 != 0 {
            return Err(LoadError::MisalignedSectionTable);
        }
        let (entry, headers) = match read_elf(elf) {
            Ok(h) => h,
            Err(_) => {
                return Err(LoadError::BadElf);
            },
        };
        let ghost a0 = frames@;
        let ghost l = *layout;
        let ghost hs = headers_view(headers@);
        let ghost ex = exports_view(exports@);
        let ghost fits = image_fits(elf@, hs, l, caps, ex) && a0.available() >= user_process_frames(l, hs);
        let ghost base = 1 + 3 * l.pages();
        proof {
            lemma_cost_mono(hs, 0, hs.len() as int);
        }
        let mut mset = match MemorySet::new_kernel(frames, mem, layout, caps) {
            Ok(m) => m,
            Err(e) => {
                return Err(LoadError::Memory(e));
            },
        };
        let mut dynamic: Option<Dynamic> = None;
        let mut i: usize = 0;
        while i < headers.len()
            invariant
                hs == headers_view(headers@),
                l == *layout,
                ex == exports_view(exports@),
                fits == (image_fits(elf@, hs, l, caps, ex) && a0.available() >= user_process_frames(l, hs)),
                base == 1 + 3 * l.pages(),
                l.wf(),
                forall|v: int| #[trigger] mset.table.mapping().contains_key(v) <==> (kernel_mapping(l, caps).contains_key(v)
                    || exists|k: int| 0 <= k < i && #[trigger] in_section(hs[k], v)),
                frames@.available() >= a0.available() - base - sections_cost(hs, i as int),
                forall|k: int| 0 <= k < i ==> section_bytes_hold(elf@, #[trigger] hs[k], mset.table.mapping(), *mem),
                forall|k: int, v: int| 0 <= k < i && #[trigger] in_section(hs[k], v) ==> mset.table.mapping().contains_key(v)
                    && frames@.lent(frame_of(mset.table.mapping(), v) as u64) && 0 <= frame_of(mset.table.mapping(), v)
                    < 0x1000_0000_0000,
                forall|k: int, v: int| 0 <= k < i && #[trigger] in_section(hs[k], v) ==> crate::paging::pte_flags(
                    mset.table.mapping()[v].bits,
                ) == section_perm(hs[k].2) | crate::paging::PTE_V,
                (last_dynamic(hs, i as int) is None ==> dynamic is None),
                (last_dynamic(hs, i as int) matches Some(k) ==> (dynamic matches Some(d) && parsed_from(
                    d,
                    elf@,
                    hs[k].4 as int,
                    hs[k].4 + hs[k].5,
                ))),
                mset.wf(),
                frames@.wf(),
                mem.wf(),
                mset.lent_from(frames@),
                forall|p: u64| #[trigger] a0.lent(p) ==> frames@.lent(p),
                a0 == old(frames)@,
                elf_section_table(elf@) == Some(hs),
                shoff_aligned(elf@),
                elf_entry_point(elf@) == Some(entry),
                i <= headers@.len(),
            decreases headers@.len() - i,
        {
            let ghost h = hs[i as int];
            let ghost mb = mset.table.mapping();
            let ghost fb = frames@;
            let ghost memb = *mem;
            proof {
                assert(header_view(headers@[i as int]) == h);
                assert(sections_cost(hs, i + 1) == sections_cost(hs, i as int) + 3 * section_pages(h));
                assert(fits ==> (section_ok(elf@, h) && frames@.available() >= 3 * section_pages(h) && forall|v: int|
                    #[trigger] in_section(h, v) ==> !mb.contains_key(v))) by {
                    if fits {
                        lemma_cost_mono(hs, i + 1, hs.len() as int);
                        assert forall|v: int| #[trigger] in_section(h, v) implies !mb.contains_key(v) by {
                            if mb.contains_key(v) {
                                if kernel_mapping(l, caps).contains_key(v) {
                                    crate::set::lemma_kernel_domain(l, caps, v);
                                    assert(reserved(l, v));
                                } else {
                                    let k = choose|k: int| 0 <= k < i && #[trigger] in_section(hs[k], v);
                                    assert(in_section(hs[k], v));
                                }
                            }
                        }
                    }
                }
            }
            match load_section(&mut mset, frames, mem, elf, &headers[i], &mut dynamic) {
                Ok(()) => {},
                Err(e) => {
                    return Err(e);
                },
            }
            proof {
                let mn = mset.table.mapping();
                assert forall|k: int| 0 <= k < i + 1 implies section_bytes_hold(elf@, #[trigger] hs[k], mn, *mem) by {
                    if k < i {
                        lemma_bytes_kept(elf@, hs[k], mb, mn, memb, *mem, fb);
                    }
                }
                assert forall|k: int, v: int| 0 <= k < i + 1 && #[trigger] in_section(hs[k], v) implies mn.contains_key(v)
                    && frames@.lent(frame_of(mn, v) as u64) && 0 <= frame_of(mn, v) < 0x1000_0000_0000 by {
                    if k < i {
                        assert(mb.contains_key(v));
                    }
                }
                assert forall|k: int, v: int| 0 <= k < i + 1 && #[trigger] in_section(hs[k], v) implies crate::paging::pte_flags(
                    mset.table.mapping()[v].bits,
                ) == section_perm(hs[k].2) | crate::paging::PTE_V by {
                    if k < i {
                        assert(mb.contains_key(v));
                    }
                }
                assert forall|v: int| #[trigger] mset.table.mapping().contains_key(v) <==> (kernel_mapping(l, caps).contains_key(v)
                    || exists|k: int| 0 <= k < i + 1 && #[trigger] in_section(hs[k], v)) by {
                    if in_section(h, v) {
                        assert(in_section(hs[i as int], v));
                    }
                    if exists|k: int| 0 <= k < i + 1 && #[trigger] in_section(hs[k], v) {
                        let k = choose|k: int| 0 <= k < i + 1 && #[trigger] in_section(hs[k], v);
                        if k < i {
                            assert(exists|k: int| 0 <= k < i && #[trigger] in_section(hs[k], v));
                        }
                    }
                }
            }
            i = i + 1;
        }
        proof {
            assert(hs.len() == headers@.len());
        }
        // The vDSO text, shared with the kernel and every other process.
        let uxr = MapPermission { bits: MAP_U | MAP_R | MAP_X };
        assert(16u8 | 2u8 | 8u8 == 26u8 && 26u8 & 0xe1u8 == 0u8) by (bit_vector);
        let vdso_lo = PhysAddr(layout.text_vdso_start).floor();
        let vdso_hi = PhysAddr(layout.text_vdso_end).ceil();
        let vdso_area = MapArea::linear(vdso_lo, vdso_hi, VirtAddr(VDSO_RESIDE).floor(), uxr);
        let ghost va = vdso_area;
        let ghost m_before = mset.table.mapping();
        let ghost mem_loop = *mem;
        proof {
            assert forall|v: int| #[trigger] va.in_range(v) <==> in_vdso_window(l, v) by {}
            assert(fits ==> forall|v: int| #[trigger] va.in_range(v) ==> !m_before.contains_key(v)) by {
                if fits {
                    assert forall|v: int| #[trigger] va.in_range(v) implies !m_before.contains_key(v) by {
                        if m_before.contains_key(v) {
                            if kernel_mapping(l, caps).contains_key(v) {
                                crate::set::lemma_kernel_domain(l, caps, v);
                            } else {
                                let k = choose|k: int| 0 <= k < hs.len() && #[trigger] in_section(hs[k], v);
                                assert(in_section(hs[k], v));
                                assert(reserved(l, v));
                            }
                        }
                    }
                }
            }
        }
        match mset.push(frames, mem, vdso_area, None) {
            Ok(()) => {},
            Err(e) => {
                return Err(LoadError::Memory(e));
            },
        }
        let ghost m_vdso = mset.table.mapping();
        proof {
            let added = mset.areas().last();
            assert forall|v: int| #[trigger] in_vdso_window(*layout, v) implies m_vdso.contains_key(v)
                && m_vdso[v] == vdso_leaf(*layout, v) by {
                assert(va.in_range(v));
                assert(added == va);
                assert(added.in_range(v));
                assert(mset.areas()[mset.areas().len() - 1] == added);
            }
        }
        // The vDSO data page, zeroed.
        let urw = MapPermission { bits: MAP_U | MAP_R | MAP_W };
        assert(16u8 | 2u8 | 4u8 == 22u8 && 22u8 & 0xe1u8 == 0u8) by (bit_vector);
        let mut zeros: Vec<u8> = Vec::new();
        while zeros.len() < 4096
            invariant
                zeros@.len() <= 4096,
                forall|k: int| 0 <= k < zeros@.len() ==> zeros@[k] == 0,
            decreases 4096 - zeros@.len(),
        {
            zeros.push(0);
        }
        let data_page = VirtAddr(VDSO_DATA).floor();
        let ghost m1 = mset.table.mapping();
        let ghost fd = frames@;
        proof {
            assert forall|v: int| #[trigger] m1.contains_key(v) <==> (kernel_mapping(l, caps).contains_key(v)
                || (exists|k: int| 0 <= k < hs.len() && #[trigger] in_section(hs[k], v)) || in_vdso_window(l, v)) by {
                assert(va.in_range(v) <==> in_vdso_window(l, v));
            }
            assert(fits ==> forall|u: int| data_page.0 <= u < data_page.0 + 1 ==> !#[trigger] m1.contains_key(u)) by {
                if fits {
                    let v = data_page.0 as int;
                    assert(!m1.contains_key(v)) by {
                        if m1.contains_key(v) {
                            if kernel_mapping(l, caps).contains_key(v) {
                                crate::set::lemma_kernel_domain(l, caps, v);
                            } else if !in_vdso_window(l, v) {
                                let k = choose|k: int| 0 <= k < hs.len() && #[trigger] in_section(hs[k], v);
                                assert(reserved(l, v));
                            }
                        }
                    }
                    assert forall|u: int| data_page.0 <= u < data_page.0 + 1 implies !#[trigger] m1.contains_key(u) by {
                        assert(u == v);
                    }
                }
            }
        }
        match push_framed(&mut mset, frames, mem, data_page, VirtPageNum(data_page.0 + 1), urw, Some(&zeros)) {
            Ok(()) => {},
            Err(e) => {
                return Err(e);
            },
        }
        let ghost m2 = mset.table.mapping();
        let ghost mem_pre = *mem;
        proof {
            assert forall|k: int| 0 <= k < hs.len() implies section_bytes_hold(elf@, #[trigger] hs[k], m2, mem_pre) by {
                assert forall|v: int| #[trigger] in_section(hs[k], v) implies m_before.contains_key(v) && fd.lent(
                    frame_of(m_before, v) as u64,
                ) && 0 <= frame_of(m_before, v) < 0x1000_0000_0000 by {
                    assert(m1.contains_key(v));
                }
                assert(keeps(m_before, m2));
                lemma_bytes_kept(elf@, hs[k], m_before, m2, mem_loop, mem_pre, fd);
            }
            assert forall|v: int| #[trigger] m2.contains_key(v) == user_domain(l, caps, hs, v) by {
                if m2.contains_key(v) && !m1.contains_key(v) {
                    assert(v == data_page.0);
                }
            }
        }
        match &dynamic {
            Some(d) => {
                proof {
                    assert(fits ==> (d.rel matches Some(RelTable::RELA(t)) ==> forall|j: int| 0 <= j < t@.len()
                        ==> (#[trigger] crate::reloc::reloc_effect(t@[j], m2, *d, ex, layout.text_vdso_start)) is Ok)) by {
                        if fits {
                            let k = last_dynamic(hs, hs.len() as int).unwrap();
                            assert(parsed_from(*d, elf@, hs[k].4 as int, hs[k].4 + hs[k].5));
                            lemma_relocs_apply(*d, m2, l, caps, hs, ex, layout.text_vdso_start, elf@, k);
                        }
                    }
                }
                let ghost mem_before = *mem;
                match apply_relocations(&mset.table, mem, d, exports, layout.text_vdso_start, layout.text_vdso_end) {
                    Ok(()) => {
                        proof {
                            lemma_supported_from_applied(*d, m2, ex, layout.text_vdso_start, elf@, hs);
                            lemma_slots(*d, m2, mem_before, *mem, ex, layout.text_vdso_start);
                            assert forall|q: int| 0 <= q && untouched_by_relocs(elf@, hs, m2, ex, layout.text_vdso_start, q) implies #[trigger] mem.byte(q)
                                == mem_before.byte(q) by {
                                assert(parsed_last_dynamic(*d, elf@, hs));
                                assert(!crate::reloc::reloc_covers(*d, m2, ex, layout.text_vdso_start, q));
                                if let Some(RelTable::RELA(t)) = d.rel {
                                    crate::reloc::lemma_uncovered(crate::reloc::reloc_writes(t@, m2, *d, ex, layout.text_vdso_start), mem_before, q);
                                }
                            }
                            assert(parsed_last_dynamic(*d, elf@, hs));
                            assert forall|d2: Dynamic| #[trigger] parsed_last_dynamic(d2, elf@, hs) implies crate::reloc::slots_hold(
                                d2,
                                m2,
                                *mem,
                                ex,
                                layout.text_vdso_start,
                            ) && effects_ok(d2, m2, ex, layout.text_vdso_start) by {
                                lemma_slots_transfer(*d, d2, elf@, hs, m2, *mem, ex, layout.text_vdso_start);
                            }
                        }
                    },
                    Err(e) => {
                        return Err(LoadError::Reloc(e));
                    },
                }
            },
            None => {
                proof {
                    assert forall|d: Dynamic| #[trigger] parsed_last_dynamic(d, elf@, hs) implies relocs_supported(d) by {}
                }
            },
        }
        let ghost m_mid = mset.table.mapping();
        let ghost mem_mid = *mem;
        proof {
            assert forall|q: int| 0 <= q && untouched_by_relocs(elf@, hs, m2, ex, layout.text_vdso_start, q) implies #[trigger] mem_mid.byte(q)
                == mem_pre.byte(q) by {}
        }
        proof {
            assert forall|d2: Dynamic| #[trigger] parsed_last_dynamic(d2, elf@, hs) implies crate::reloc::slots_hold(
                d2,
                m2,
                mem_mid,
                ex,
                layout.text_vdso_start,
            ) && effects_ok(d2, m2, ex, layout.text_vdso_start) by {
                if dynamic is None {
                    assert(!parsed_last_dynamic(d2, elf@, hs));
                }
            }
        }
        // The stack, ending at the stack top.
        let stack_end = VirtAddr(PROCESS_STACK_TOP).ceil();
        let stack_start = VirtPageNum(stack_end.0 - PROCESS_STACK_PAGES);
        proof {
            assert(fits ==> forall|u: int| stack_start.0 <= u < stack_end.0 ==> !#[trigger] m_mid.contains_key(u)) by {
                if fits {
                assert forall|u: int| stack_start.0 <= u < stack_end.0 implies !#[trigger] m_mid.contains_key(u) by {
                    assert(in_stack(u));
                    if m_mid.contains_key(u) {
                        assert(user_domain(l, caps, hs, u));
                        if kernel_mapping(l, caps).contains_key(u) {
                            crate::set::lemma_kernel_domain(l, caps, u);
                        } else if exists|k: int| 0 <= k < hs.len() && #[trigger] in_section(hs[k], u) {
                            let k = choose|k: int| 0 <= k < hs.len() && #[trigger] in_section(hs[k], u);
                            assert(reserved(l, u));
                        }
                    }
                }
            }
            }
        }
        match push_framed(&mut mset, frames, mem, stack_start, stack_end, urw, None) {
            Ok(()) => {},
            Err(e) => {
                return Err(e);
            },
        }
        let mut tf = TrapFrame::with_process(true, entry, PROCESS_STACK_TOP, sstatus, scause);
        tf.set_args(data[0], data[1]);
        proof {
            assert forall|v: int| #[trigger] in_vdso_window(*layout, v) implies mset.table.mapping().contains_key(v)
                && mset.table.mapping()[v] == vdso_leaf(*layout, v) by {
                assert(m_vdso.contains_key(v));
                assert(m_mid.contains_key(v));
            }
            assert(mset.wf());
            assert(mset.lent_from(frames@));
            assert(elf_entry_point(elf@) == Some(tf.sepc));
            assert(tf.x@[2] == PROCESS_STACK_TOP);
            assert(tf.sstatus & SSTATUS_SPP == 0);
            assert forall|v: int| #[trigger] in_stack(v) implies mset.table.mapping().contains_key(v)
                && crate::paging::pte_flags(mset.table.mapping()[v].bits) == (MAP_U | MAP_R | MAP_W) | crate::paging::PTE_V by {
                assert(stack_start.0 <= v < stack_end.0);
            }
            assert forall|d2: Dynamic| #[trigger] parsed_last_dynamic(d2, elf@, hs) implies crate::reloc::slots_hold(
                d2,
                mset.table.mapping(),
                *mem,
                ex,
                layout.text_vdso_start,
            ) by {
                lemma_slots_extend(d2, m2, mset.table.mapping(), *mem, ex, layout.text_vdso_start);
            }
            assert forall|k: int, v: int| 0 <= k < hs.len() && #[trigger] in_section(hs[k], v) implies crate::paging::pte_flags(
                mset.table.mapping()[v].bits,
            ) == section_perm(hs[k].2) | crate::paging::PTE_V by {
                assert(m_before.contains_key(v));
                assert(m1.contains_key(v));
                assert(m2.contains_key(v));
            }
            let mf = mset.table.mapping();
            let dv = VDSO_DATA as int / 4096;
            assert(m2.contains_key(dv));
            assert forall|off: int| 0 <= off < 4096 implies #[trigger] mem_pre.byte(frame_of(m2, dv) * 4096 + off) == 0 by {
                assert(zeros@[off] == 0);
            }
            lemma_final_data(elf@, hs, m2, mf, mem_pre, *mem, ex, layout.text_vdso_start, dv);
            lemma_final_sections(elf@, hs, m_before, m2, mf, mem_pre, *mem, ex, layout.text_vdso_start);
            let last = mset.areas().last();
            assert forall|v: int| #[trigger] mset.table.mapping().contains_key(v) <==> (user_domain(l, caps, hs, v) || in_stack(v)) by {
                assert(last.in_range(v) <==> in_stack(v));
                assert(m_mid.contains_key(v) == m2.contains_key(v));
            }
        }
        Ok(Process { mset, tf })
    }

    /// A kernel process: the kernel template and a 16-page stack (`R | W`),
    /// starting at `entry` in supervisor mode with `data` in `a0` and `a1`.
    pub fn new_kernel(
        entry: u64,
        data: [u64; 2],
        frames: &mut FrameAllocator,
        mem: &mut PhysMem,
        layout: &KernelLayout,
        sstatus: u64,
        scause: u64,
    ) -> (r: Result<Process, LoadError>)
        requires
            old(frames)@.wf(),
            old(mem).wf(),
            layout.wf(),
        ensures
            final(frames)@.wf(),
            final(mem).wf(),
            forall|p: u64| #[trigger] old(frames)@.lent(p) ==> final(frames)@.lent(p),
            (r is Err ==> r == Err::<Process, LoadError>(LoadError::Memory(PagingError::OutOfFrames))),
            (old(frames)@.available() >= kernel_process_frames(*layout) ==> r is Ok),
            (r is Ok ==> final(frames)@.available() >= old(frames)@.available() - kernel_process_frames(*layout)),
            (r matches Ok(p) ==> {
                &&& p.mset.wf()
                &&& p.mset.lent_from(final(frames)@)
                &&& p.tf.sepc == entry
                &&& p.tf.x@[2] == PROCESS_STACK_TOP
                &&& p.tf.x@[10] == data@[0]
                &&& p.tf.x@[11] == data@[1]
                &&& p.tf.sstatus & SSTATUS_SPP == SSTATUS_SPP
                &&& p.tf.sstatus & SSTATUS_SPIE == SSTATUS_SPIE
                &&& forall|v: int| #[trigger] in_stack(v) ==> p.mset.table.mapping().contains_key(v)
                    && crate::paging::pte_flags(p.mset.table.mapping()[v].bits) == (MAP_R | MAP_W) | crate::paging::PTE_V
            }),
    {
        let mut mset = match MemorySet::new_kernel(frames, mem, layout, UserCaps { serial: false }) {
            Ok(m) => m,
            Err(e) => {
                return Err(LoadError::Memory(e));
            },
        };
        let rw = MapPermission { bits: MAP_R | MAP_W };
        assert(2u8 | 4u8 == 6u8 && 6u8 & 0xe1u8 == 0u8) by (bit_vector);
        let stack_end = VirtAddr(PROCESS_STACK_TOP).ceil();
        let stack_start = VirtPageNum(stack_end.0 - PROCESS_STACK_PAGES);
        let area = MapArea::frames(stack_start, stack_end, rw);
        proof {
            assert forall|v: int| #[trigger] area.in_range(v) implies area.ready_for(v) by {
                if let MapTarget::Framed { frames: fl } = area.target {
                    assert(fl.len() == 0);
                }
            }
        }
        let ghost m0 = mset.table.mapping();
        proof {
            assert(stack_end.0 == PROCESS_STACK_TOP / 4096);
            assert forall|v: int| stack_start.0 <= v < stack_end.0 implies !#[trigger] m0.contains_key(v) by {
                if m0.contains_key(v) {
                    crate::set::lemma_kernel_domain(*layout, UserCaps { serial: false }, v);
                }
            }
        }
        match push_framed(&mut mset, frames, mem, stack_start, stack_end, rw, None) {
            Ok(()) => {},
            Err(_) => {
                return Err(LoadError::Memory(PagingError::OutOfFrames));
            },
        }
        let mut tf = TrapFrame::with_process(false, entry, PROCESS_STACK_TOP, sstatus, scause);
        tf.set_args(data[0], data[1]);
        proof {
            assert forall|v: int| #[trigger] in_stack(v) implies mset.table.mapping().contains_key(v)
                && crate::paging::pte_flags(mset.table.mapping()[v].bits) == (MAP_R | MAP_W) | crate::paging::PTE_V by {
                assert(stack_start.0 <= v < stack_end.0);
            }
        }
        Ok(Process { mset, tf })
    }
}

pub type HeaderView = (Option<Seq<u8>>, bool, u64, u64, u64, u64);

pub open spec fn is_alloc(h: HeaderView) -> bool {
    h.2 & SHF_ALLOC != 0
}

pub open spec fn is_dynamic(h: HeaderView) -> bool {
    h.0 matches Some(n) && n.len() >= 8 && n.subrange(0, 8) == dynamic_name()
}

/// The section's bytes lie in an image of `len` bytes.
pub open spec fn in_file(h: HeaderView, len: int) -> bool {
    h.4 <= len && h.5 <= len - h.4
}

/// Page `v` is one of an allocatable section's pages.
pub open spec fn in_section(h: HeaderView, v: int) -> bool {
    is_alloc(h) && h.3 as int / 4096 <= v < crate::addr::page_ceil(h.3 + h.5)
}

pub open spec fn section_pages(h: HeaderView) -> int {
    if is_alloc(h) {
        crate::addr::page_ceil(h.3 + h.5) - h.3 as int / 4096
    } else {
        0
    }
}

/// The loader takes this section: a dynamic section lies in the image and
/// parses; an allocatable one is non-empty, below 2^39, and its file bytes
/// lie in the image.
pub open spec fn section_ok(elf: Seq<u8>, h: HeaderView) -> bool {
    &&& (is_dynamic(h) ==> in_file(h, elf.len() as int) && dynamic_error(elf, h.4 as int, h.4 + h.5) is None)
    &&& (is_alloc(h) ==> h.5 > 0 && h.3 < 0x80_0000_0000 && h.5 <= 0x80_0000_0000 - h.3 && (!h.1 ==> in_file(
        h,
        elf.len() as int,
    )))
}

/// The frame behind page `v`.
pub open spec fn frame_of(m: Map<int, crate::paging::PTE>, v: int) -> int {
    crate::paging::pte_ppn(m[v].bits) as int
}

/// Where byte `j * 4096 + off` of a section's file contents lies: offset
/// `off` of the frame behind the section's page `j`.
pub open spec fn section_addr(m: Map<int, crate::paging::PTE>, h: HeaderView, j: int, off: int) -> int {
    frame_of(m, h.3 as int / 4096 + j) * 4096 + off
}

/// A file-backed allocatable section's bytes are in its frames.
pub open spec fn section_bytes_hold(elf: Seq<u8>, h: HeaderView, m: Map<int, crate::paging::PTE>, mem: PhysMem) -> bool {
    is_alloc(h) && !h.1 ==> forall|j: int, off: int|
        0 <= j && 0 <= off < 4096 && j * 4096 + off < h.5 ==> mem.byte(#[trigger] section_addr(m, h, j, off)) == elf[h.4
            + j * 4096 + off]
}

/// No relocation of the image's last dynamic section writes byte `q`.
pub open spec fn untouched_by_relocs(
    elf: Seq<u8>,
    hs: Seq<HeaderView>,
    m: Map<int, crate::paging::PTE>,
    ex: Seq<(Seq<u8>, u64)>,
    vs: u64,
    q: int,
) -> bool {
    forall|d: Dynamic| #[trigger] parsed_last_dynamic(d, elf, hs) ==> !crate::reloc::reloc_covers(d, m, ex, vs, q)
}

/// Pages that the kernel template, the vDSO and the stack may take.
pub open spec fn reserved(l: KernelLayout, v: int) -> bool {
    ||| v == crate::consts::SERIAL_BASE / 4096
    ||| l.text_start / 4096 <= v < crate::consts::PHYS_MEMORY_END / 4096
    ||| in_vdso_window(l, v)
    ||| v == VDSO_DATA / 4096
    ||| in_stack(v)
}

/// Three frames per page of the sections before `n`.
pub open spec fn sections_cost(hs: Seq<HeaderView>, n: int) -> int
    decreases n,
{
    if n <= 0 {
        0
    } else {
        sections_cost(hs, n - 1) + 3 * section_pages(hs[n - 1])
    }
}

/// The last dynamic section before `n`.
pub open spec fn last_dynamic(hs: Seq<HeaderView>, n: int) -> Option<int>
    decreases n,
{
    if n <= 0 {
        None
    } else if is_dynamic(hs[n - 1]) {
        Some(n - 1)
    } else {
        last_dynamic(hs, n - 1)
    }
}

/// Pages mapped when the relocations are applied.
pub open spec fn user_domain(l: KernelLayout, caps: UserCaps, hs: Seq<HeaderView>, v: int) -> bool {
    ||| kernel_mapping(l, caps).contains_key(v)
    ||| (exists|i: int| 0 <= i < hs.len() && #[trigger] in_section(hs[i], v))
    ||| in_vdso_window(l, v)
    ||| v == VDSO_DATA / 4096
}

pub open spec fn user_domain_set(l: KernelLayout, caps: UserCaps, hs: Seq<HeaderView>) -> Set<int> {
    Set::new(|v: int| user_domain(l, caps, hs, v))
}

/// An image the loader takes: every section is taken, no allocatable
/// section shares a page with another or with the template, the vDSO or the
/// stack, the vDSO text fits below its data page, and every relocation of
/// the last dynamic section applies.
pub open spec fn image_fits(elf: Seq<u8>, hs: Seq<HeaderView>, l: KernelLayout, caps: UserCaps, ex: Seq<(Seq<u8>, u64)>) -> bool {
    &&& forall|i: int| 0 <= i < hs.len() ==> section_ok(elf, #[trigger] hs[i])
    &&& forall|i: int, v: int| 0 <= i < hs.len() && #[trigger] in_section(hs[i], v) ==> !reserved(l, v)
    &&& forall|i: int, j: int, v: int|
        0 <= i < hs.len() && 0 <= j < hs.len() && i != j && #[trigger] in_section(hs[i], v) ==> !#[trigger] in_section(hs[j], v)
    &&& !in_vdso_window(l, VDSO_DATA as int / 4096)
    &&& forall|d: Dynamic| #[trigger] parsed_last_dynamic(d, elf, hs) ==> relocs_fit(d, l, caps, hs, ex)
}

/// `d` holds the tables of the last dynamic section of the image.
pub open spec fn parsed_last_dynamic(d: Dynamic, elf: Seq<u8>, hs: Seq<HeaderView>) -> bool {
    match last_dynamic(hs, hs.len() as int) {
        Some(k) => parsed_from(d, elf, hs[k].4 as int, hs[k].4 + hs[k].5),
        None => false,
    }
}

/// Every entry of the `RELA` table of `d` applies once the image is mapped.
pub open spec fn relocs_fit(d: Dynamic, l: KernelLayout, caps: UserCaps, hs: Seq<HeaderView>, ex: Seq<(Seq<u8>, u64)>) -> bool {
    d.rel matches Some(RelTable::RELA(t)) ==> forall|j: int|
        0 <= j < t@.len() ==> reloc_ok_in(#[trigger] t@[j], user_domain_set(l, caps, hs), d, ex)
}

proof fn lemma_supported_from_applied(
    d: Dynamic,
    m: Map<int, crate::paging::PTE>,
    ex: Seq<(Seq<u8>, u64)>,
    vdso_start: u64,
    elf: Seq<u8>,
    hs: Seq<HeaderView>,
)
    requires
        parsed_last_dynamic(d, elf, hs),
        d.rel matches Some(RelTable::RELA(t)) ==> forall|j: int|
            0 <= j < t@.len() ==> (#[trigger] crate::reloc::reloc_effect(t@[j], m, d, ex, vdso_start)) is Ok,
    ensures
        forall|d2: Dynamic| #[trigger] parsed_last_dynamic(d2, elf, hs) ==> relocs_supported(d2),
{
    assert forall|d2: Dynamic| #[trigger] parsed_last_dynamic(d2, elf, hs) implies relocs_supported(d2) by {
        if let Some(RelTable::RELA(t2)) = d2.rel {
            if let Some(RelTable::RELA(t)) = d.rel {
                assert(t2@ == t@);
                assert forall|j: int| 0 <= j < t2@.len() implies (#[trigger] t2@[j]).info % 0x1_0000_0000
                    == crate::reloc::R_RELATIVE || t2@[j].info % 0x1_0000_0000 == crate::reloc::R_JUMP_SLOT by {
                    assert(crate::reloc::reloc_effect(t@[j], m, d, ex, vdso_start) is Ok);
                }
            }
        }
    }
}

/// Every entry of the `RELA` table of `d` applies in `m`.
pub open spec fn effects_ok(d: Dynamic, m: Map<int, crate::paging::PTE>, ex: Seq<(Seq<u8>, u64)>, vs: u64) -> bool {
    d.rel matches Some(RelTable::RELA(t)) ==> forall|j: int|
        0 <= j < t@.len() ==> (#[trigger] crate::reloc::reloc_effect(t@[j], m, d, ex, vs)) is Ok
}

proof fn lemma_slots_transfer(d: Dynamic, d2: Dynamic, elf: Seq<u8>, hs: Seq<HeaderView>, m: Map<int, crate::paging::PTE>, mem: PhysMem, ex: Seq<(Seq<u8>, u64)>, vs: u64)
    requires
        parsed_last_dynamic(d, elf, hs),
        parsed_last_dynamic(d2, elf, hs),
        crate::reloc::slots_hold(d, m, mem, ex, vs),
        effects_ok(d, m, ex, vs),
    ensures
        crate::reloc::slots_hold(d2, m, mem, ex, vs),
        effects_ok(d2, m, ex, vs),
{
    lemma_same_effects(d, d2, elf, hs, m, ex, vs);
    if let Some(RelTable::RELA(t2)) = d2.rel {
        if let Some(RelTable::RELA(t)) = d.rel {
            assert(crate::reloc::reloc_writes(t2@, m, d2, ex, vs) =~= crate::reloc::reloc_writes(t@, m, d, ex, vs));
            assert forall|j: int| 0 <= j < t2@.len() implies (#[trigger] crate::reloc::reloc_effect(t2@[j], m, d2, ex, vs)) is Ok by {
                assert(crate::reloc::reloc_effect(t@[j], m, d, ex, vs) is Ok);
            }
        }
    }
}

/// A section's bytes stay where they are while only frames the allocator
/// still held are written and its pages keep their frames.
proof fn lemma_bytes_kept(
    elf: Seq<u8>,
    h: HeaderView,
    m0: Map<int, crate::paging::PTE>,
    m1: Map<int, crate::paging::PTE>,
    mem0: PhysMem,
    mem1: PhysMem,
    a: crate::frame::AllocState,
)
    requires
        section_bytes_hold(elf, h, m0, mem0),
        forall|v: int| #[trigger] in_section(h, v) ==> m0.contains_key(v) && a.lent(frame_of(m0, v) as u64)
            && 0 <= frame_of(m0, v) < 0x1000_0000_0000,
        keeps(m0, m1),
        forall|q: int| 0 <= q && !a.holds(q / 4096) ==> #[trigger] mem1.byte(q) == mem0.byte(q),
    ensures
        section_bytes_hold(elf, h, m1, mem1),
{
    if is_alloc(h) && !h.1 {
        assert forall|j: int, off: int| 0 <= j && 0 <= off < 4096 && j * 4096 + off < h.5 implies mem1.byte(
            #[trigger] section_addr(m1, h, j, off),
        ) == elf[h.4 + j * 4096 + off] by {
            let lo = h.3 as int / 4096;
            assert(lo + j < crate::addr::page_ceil(h.3 + h.5)) by (nonlinear_arith)
                requires
                    lo == h.3 as int / 4096,
                    j * 4096 + off < h.5,
                    0 <= off,
                    0 <= j,
            ;
            let v = lo + j;
            assert(in_section(h, v));
            assert(section_addr(m1, h, j, off) == section_addr(m0, h, j, off));
            let f = frame_of(m0, v);
            let q = f * 4096 + off;
            assert(q / 4096 == f);
            assert(!a.holds(f));
        }
    }
}

/// Entries that all apply in `m2` write the same in an address space that
/// keeps `m2`'s mappings.
proof fn lemma_writes_extend(d: Dynamic, m2: Map<int, crate::paging::PTE>, mf: Map<int, crate::paging::PTE>, ex: Seq<(Seq<u8>, u64)>, vs: u64)
    requires
        keeps(m2, mf),
        effects_ok(d, m2, ex, vs),
    ensures
        d.rel matches Some(RelTable::RELA(t)) ==> crate::reloc::reloc_writes(t@, mf, d, ex, vs) == crate::reloc::reloc_writes(
            t@,
            m2,
            d,
            ex,
            vs,
        ),
{
    if let Some(RelTable::RELA(t)) = d.rel {
        assert forall|j: int| 0 <= j < t@.len() implies #[trigger] crate::reloc::reloc_effect(t@[j], mf, d, ex, vs)
            == crate::reloc::reloc_effect(t@[j], m2, d, ex, vs) by {
            assert(crate::reloc::reloc_effect(t@[j], m2, d, ex, vs) is Ok);
            let pg = t@[j].offset as int / 4096;
            if m2.contains_key(pg) {
                assert(mf.contains_key(pg) && mf[pg] == m2[pg]);
            }
        }
        assert(crate::reloc::reloc_writes(t@, mf, d, ex, vs) =~= crate::reloc::reloc_writes(t@, m2, d, ex, vs));
    }
}

proof fn lemma_untouched_transfer(
    elf: Seq<u8>,
    hs: Seq<HeaderView>,
    m2: Map<int, crate::paging::PTE>,
    mf: Map<int, crate::paging::PTE>,
    ex: Seq<(Seq<u8>, u64)>,
    vs: u64,
    q: int,
)
    requires
        keeps(m2, mf),
        forall|d: Dynamic| #[trigger] parsed_last_dynamic(d, elf, hs) ==> effects_ok(d, m2, ex, vs),
        untouched_by_relocs(elf, hs, mf, ex, vs, q),
    ensures
        untouched_by_relocs(elf, hs, m2, ex, vs, q),
{
    assert forall|d: Dynamic| #[trigger] parsed_last_dynamic(d, elf, hs) implies !crate::reloc::reloc_covers(d, m2, ex, vs, q) by {
        lemma_writes_extend(d, m2, mf, ex, vs);
        assert(!crate::reloc::reloc_covers(d, mf, ex, vs, q));
    }
}

proof fn lemma_final_data(
    elf: Seq<u8>,
    hs: Seq<HeaderView>,
    m2: Map<int, crate::paging::PTE>,
    mf: Map<int, crate::paging::PTE>,
    mem_pre: PhysMem,
    mem: PhysMem,
    ex: Seq<(Seq<u8>, u64)>,
    vs: u64,
    dv: int,
)
    requires
        keeps(m2, mf),
        m2.contains_key(dv),
        forall|d: Dynamic| #[trigger] parsed_last_dynamic(d, elf, hs) ==> effects_ok(d, m2, ex, vs),
        forall|q: int| 0 <= q && untouched_by_relocs(elf, hs, m2, ex, vs, q) ==> #[trigger] mem.byte(q) == mem_pre.byte(q),
        forall|off: int| 0 <= off < 4096 ==> #[trigger] mem_pre.byte(frame_of(m2, dv) * 4096 + off) == 0,
    ensures
        forall|off: int| 0 <= off < 4096 && untouched_by_relocs(elf, hs, mf, ex, vs, frame_of(mf, dv) * 4096 + off)
            ==> #[trigger] mem.byte(frame_of(mf, dv) * 4096 + off) == 0,
{
    assert forall|off: int| 0 <= off < 4096 && untouched_by_relocs(elf, hs, mf, ex, vs, frame_of(mf, dv) * 4096 + off)
        implies #[trigger] mem.byte(frame_of(mf, dv) * 4096 + off) == 0 by {
        assert(frame_of(mf, dv) == frame_of(m2, dv));
        lemma_untouched_transfer(elf, hs, m2, mf, ex, vs, frame_of(mf, dv) * 4096 + off);
    }
}

proof fn lemma_final_sections(
    elf: Seq<u8>,
    hs: Seq<HeaderView>,
    m0: Map<int, crate::paging::PTE>,
    m2: Map<int, crate::paging::PTE>,
    mf: Map<int, crate::paging::PTE>,
    mem_pre: PhysMem,
    mem: PhysMem,
    ex: Seq<(Seq<u8>, u64)>,
    vs: u64,
)
    requires
        keeps(m0, m2),
        keeps(m2, mf),
        forall|k: int, v: int| 0 <= k < hs.len() && #[trigger] in_section(hs[k], v) ==> m0.contains_key(v),
        forall|k: int| 0 <= k < hs.len() ==> section_bytes_hold(elf, #[trigger] hs[k], m2, mem_pre),
        forall|d: Dynamic| #[trigger] parsed_last_dynamic(d, elf, hs) ==> effects_ok(d, m2, ex, vs),
        forall|q: int| 0 <= q && untouched_by_relocs(elf, hs, m2, ex, vs, q) ==> #[trigger] mem.byte(q) == mem_pre.byte(q),
    ensures
        forall|i: int, j: int, off: int|
            0 <= i < hs.len() && 0 <= j && 0 <= off < 4096 && j * 4096 + off < hs[i].5 && is_alloc(hs[i]) && !hs[i].1
                && untouched_by_relocs(elf, hs, mf, ex, vs, section_addr(mf, hs[i], j, off)) ==> mem.byte(
                #[trigger] section_addr(mf, hs[i], j, off),
            ) == elf[hs[i].4 + j * 4096 + off],
{
    assert forall|i: int, j: int, off: int|
        0 <= i < hs.len() && 0 <= j && 0 <= off < 4096 && j * 4096 + off < hs[i].5 && is_alloc(hs[i]) && !hs[i].1
            && untouched_by_relocs(elf, hs, mf, ex, vs, section_addr(mf, hs[i], j, off)) implies mem.byte(
            #[trigger] section_addr(mf, hs[i], j, off),
        ) == elf[hs[i].4 + j * 4096 + off] by {
        let lo = hs[i].3 as int / 4096;
        assert(lo + j < crate::addr::page_ceil(hs[i].3 + hs[i].5)) by (nonlinear_arith)
            requires
                lo == hs[i].3 as int / 4096,
                j * 4096 + off < hs[i].5,
                0 <= off,
                0 <= j,
        ;
        assert(in_section(hs[i], lo + j));
        assert(m0.contains_key(lo + j));
        let q = section_addr(mf, hs[i], j, off);
        assert(q == section_addr(m2, hs[i], j, off));
        lemma_untouched_transfer(elf, hs, m2, mf, ex, vs, q);
        assert(section_bytes_hold(elf, hs[i], m2, mem_pre));
    }
}

proof fn lemma_slots(d: Dynamic, m: Map<int, crate::paging::PTE>, mbase: PhysMem, mem: PhysMem, ex: Seq<(Seq<u8>, u64)>, vs: u64)
    requires
        d.rel matches Some(RelTable::RELA(t)) ==> forall|q: int| #[trigger] mem.byte(q) == crate::reloc::after_writes(
            crate::reloc::reloc_writes(t@, m, d, ex, vs),
            mbase,
            q,
        ),
    ensures
        crate::reloc::slots_hold(d, m, mem, ex, vs),
{
    if let Some(RelTable::RELA(t)) = d.rel {
        let ws = crate::reloc::reloc_writes(t@, m, d, ex, vs);
        assert forall|j: int| #[trigger] crate::reloc::last_writer(ws, j) implies crate::physmem::le_value(
            mem.bytes_at(ws[j].unwrap().0, 8),
        ) == ws[j].unwrap().1 by {
            let (pa, v) = ws[j].unwrap();
            lemma_u64_round_trip(v);
            assert forall|k: int| 0 <= k < 8 implies #[trigger] mem.bytes_at(pa, 8)[k] == le_bytes(v as nat, 8)[k] by {
                crate::reloc::lemma_last_writer(ws, mbase, j, pa + k);
            }
            assert(mem.bytes_at(pa, 8) =~= le_bytes(v as nat, 8));
        }
    }
}

/// The tables of the last dynamic section are the same whichever value
/// holds them, and so is what each entry does.
proof fn lemma_same_effects(d: Dynamic, d2: Dynamic, elf: Seq<u8>, hs: Seq<HeaderView>, m: Map<int, crate::paging::PTE>, ex: Seq<(Seq<u8>, u64)>, vs: u64)
    requires
        parsed_last_dynamic(d, elf, hs),
        parsed_last_dynamic(d2, elf, hs),
    ensures
        d.rel matches Some(RelTable::RELA(t)) ==> (d2.rel matches Some(RelTable::RELA(t2)) && t2@ == t@),
        d.rel is None ==> d2.rel is None,
        forall|e: crate::elf::Elf64RELA| #[trigger] crate::reloc::reloc_effect(e, m, d2, ex, vs) == crate::reloc::reloc_effect(e, m, d, ex, vs),
{
    assert forall|idx: int| #[trigger] d2.sym_name(idx) == d.sym_name(idx) by {}
}

/// Entries that all apply in `m2` do the same in an address space that
/// keeps `m2`'s mappings.
proof fn lemma_slots_extend(d: Dynamic, m2: Map<int, crate::paging::PTE>, mf: Map<int, crate::paging::PTE>, mem: PhysMem, ex: Seq<(Seq<u8>, u64)>, vs: u64)
    requires
        keeps(m2, mf),
        crate::reloc::slots_hold(d, m2, mem, ex, vs),
        d.rel matches Some(RelTable::RELA(t)) ==> forall|j: int|
            0 <= j < t@.len() ==> (#[trigger] crate::reloc::reloc_effect(t@[j], m2, d, ex, vs)) is Ok,
    ensures
        crate::reloc::slots_hold(d, mf, mem, ex, vs),
{
    if let Some(RelTable::RELA(t)) = d.rel {
        assert forall|j: int| 0 <= j < t@.len() implies #[trigger] crate::reloc::reloc_effect(t@[j], mf, d, ex, vs)
            == crate::reloc::reloc_effect(t@[j], m2, d, ex, vs) by {
            assert(crate::reloc::reloc_effect(t@[j], m2, d, ex, vs) is Ok);
            let e = t@[j];
            let pg = e.offset as int / 4096;
            if m2.contains_key(pg) {
                assert(mf.contains_key(pg) && mf[pg] == m2[pg]);
            }
        }
        assert(crate::reloc::reloc_writes(t@, mf, d, ex, vs) =~= crate::reloc::reloc_writes(t@, m2, d, ex, vs));
    }
}

proof fn lemma_relocs_apply(
    d: Dynamic,
    m: Map<int, crate::paging::PTE>,
    l: KernelLayout,
    caps: UserCaps,
    hs: Seq<HeaderView>,
    ex: Seq<(Seq<u8>, u64)>,
    vdso_start: u64,
    elf: Seq<u8>,
    k: int,
)
    requires
        image_fits(elf, hs, l, caps, ex),
        last_dynamic(hs, hs.len() as int) == Some(k),
        parsed_from(d, elf, hs[k].4 as int, hs[k].4 + hs[k].5),
        forall|v: int| #[trigger] m.contains_key(v) == user_domain(l, caps, hs, v),
    ensures
        d.rel matches Some(RelTable::RELA(t)) ==> forall|j: int|
            0 <= j < t@.len() ==> (#[trigger] crate::reloc::reloc_effect(t@[j], m, d, ex, vdso_start)) is Ok,
{
    if let Some(RelTable::RELA(t)) = d.rel {
        assert forall|v: int| #[trigger] m.contains_key(v) == user_domain_set(l, caps, hs).contains(v) by {}
        assert(parsed_last_dynamic(d, elf, hs));
        assert(relocs_fit(d, l, caps, hs, ex));
        assert forall|j: int| 0 <= j < t@.len() implies (#[trigger] crate::reloc::reloc_effect(t@[j], m, d, ex, vdso_start)) is Ok by {
            lemma_reloc_ok_in(t@[j], m, user_domain_set(l, caps, hs), d, ex, vdso_start);
        }
    }
}

/// Every entry of the `RELA` table of `d` is `RELATIVE` or `JUMP_SLOT`.
pub open spec fn relocs_supported(d: Dynamic) -> bool {
    d.rel matches Some(RelTable::RELA(t)) ==> forall|j: int|
        0 <= j < t@.len() ==> (#[trigger] t@[j]).info % 0x1_0000_0000 == crate::reloc::R_RELATIVE || t@[j].info
            % 0x1_0000_0000 == crate::reloc::R_JUMP_SLOT
}

/// The loader takes the image with `avail` frames free.
pub open spec fn user_image_loads(elf: Seq<u8>, l: KernelLayout, caps: UserCaps, ex: Seq<(Seq<u8>, u64)>, avail: int) -> bool {
    shoff_aligned(elf) && match elf_section_table(elf) {
        Some(hs) => image_fits(elf, hs, l, caps, ex) && avail >= user_process_frames(l, hs),
        None => false,
    }
}

/// Frames that loading a user image needs at most.
pub open spec fn user_process_frames(l: KernelLayout, hs: Seq<HeaderView>) -> int {
    1 + 3 * l.pages() + sections_cost(hs, hs.len() as int) + 3 * (crate::addr::page_ceil(l.text_vdso_end as int)
        - l.text_vdso_start / 4096) + 3 + 3 * PROCESS_STACK_PAGES
}

pub proof fn lemma_cost_mono(hs: Seq<HeaderView>, a: int, b: int)
    requires
        0 <= a <= b,
    ensures
        sections_cost(hs, a) <= sections_cost(hs, b),
    decreases b,
{
    if a < b {
        lemma_cost_mono(hs, a, b - 1);
    }
}

/// Frames that a kernel process needs at most: the kernel template and
/// three per stack page.
pub open spec fn kernel_process_frames(l: KernelLayout) -> int {
    1 + 3 * l.pages() + 3 * PROCESS_STACK_PAGES
}

} // verus!
