use channel_os::addr::{PhysAddr, PhysPageNum, VirtAddr, VirtPageNum};
use channel_os::frame::{Frame, FrameAllocator};
use channel_os::paging::{PTEFlags, PageTable, PagingError, PTE, PTE_R, PTE_U, PTE_V, PTE_W, PTE_X};
use channel_os::physmem::PhysMem;
use channel_os::set::{MapArea, MapPermission, MapTarget, MemorySet, MAP_R, MAP_U, MAP_W};

fn allocator() -> FrameAllocator {
    FrameAllocator::new(PhysAddr(0x8100_0000), PhysAddr(0x8200_0000))
}

#[test]
fn sv39_index_decomposition() {
    let vpn = 0x1_2345_6789u64 & ((1 << 27) - 1);
    let idx = VirtPageNum(vpn).indexes();
    assert_eq!(idx, [(vpn >> 18 & 511) as usize, (vpn >> 9 & 511) as usize, (vpn & 511) as usize]);
    assert_eq!(idx, [0xd1, 0xb3, 0x189]);
}

#[test]
fn address_rounding() {
    let a = VirtAddr(0x1234);
    assert_eq!(a.floor(), VirtPageNum(1));
    assert_eq!(a.ceil(), VirtPageNum(2));
    assert_eq!(a.page_offset(), 0x234);
    assert_eq!(VirtAddr(0x2000).ceil(), VirtPageNum(2));
    assert_eq!(PhysAddr(0xfff).floor(), PhysPageNum(0));
    assert_eq!(PhysAddr(0x1001).ceil(), PhysPageNum(2));
    assert_eq!(PhysAddr::new(u64::MAX).0, 0xff_ffff_ffff_ffff);
    assert_eq!(PhysPageNum::new(u64::MAX).0, 0xfff_ffff_ffff);
    assert_eq!(PhysPageNum(3).addr(), PhysAddr(0x3000));
    assert_eq!(VirtPageNum::from_addr(VirtAddr(0x5000)), VirtPageNum(5));
}

#[test]
fn frames_are_handed_out_in_order() {
    let mut fa = allocator();
    let a = Frame::allocate(&mut fa).unwrap();
    let b = Frame::allocate(&mut fa).unwrap();
    assert_eq!(a.ppn(), PhysPageNum(0x81000));
    assert_eq!(b.ppn(), PhysPageNum(0x81001));
}

#[test]
fn frame_allocator_reuse() {
    let mut fa = allocator();
    let frames: Vec<Frame> = (0..5).map(|_| Frame::allocate(&mut fa).unwrap()).collect();
    let mut dropped: Vec<u64> = frames.iter().map(|f| f.ppn().0).collect();
    // Free in an arbitrary order.
    let mut frames = frames;
    let order = [3usize, 0, 4, 1, 2];
    let mut taken: Vec<Option<Frame>> = frames.drain(..).map(Some).collect();
    let mut freed_order = Vec::new();
    for &i in &order {
        let f = taken[i].take().unwrap();
        freed_order.push(f.ppn().0);
        fa.dealloc(f);
    }
    let again: Vec<u64> = (0..5).map(|_| Frame::allocate(&mut fa).unwrap().ppn().0).collect();
    let mut expected_lifo = freed_order.clone();
    expected_lifo.reverse();
    assert_eq!(again, expected_lifo);
    let mut again_sorted = again.clone();
    again_sorted.sort();
    dropped.sort();
    assert_eq!(again_sorted, dropped);
    // Past the freed ones, the bump pointer goes on.
    assert_eq!(Frame::allocate(&mut fa).unwrap().ppn().0, 0x81005);
}

#[test]
fn frame_exhaustion() {
    let mut fa = FrameAllocator::new(PhysAddr(0x87ff_d000), PhysAddr(0x8800_0000));
    assert!(fa.has_available(3));
    assert!(!fa.has_available(4));
    for _ in 0..3 {
        let f = Frame::allocate(&mut fa).unwrap();
        assert!(f.ppn().0 < 0x88000);
    }
    assert!(Frame::allocate(&mut fa).is_none());
}

#[test]
fn page_table_round_trip() {
    let mut fa = allocator();
    let mut pt = PageTable::new(&mut fa).unwrap();
    let vpn = VirtPageNum(0x12345);
    let flags = PTEFlags { bits: PTE_R | PTE_W | PTE_X | PTE_U };
    assert_eq!(pt.translate(vpn), None);
    pt.map(&mut fa, vpn, PhysPageNum(0x8_7654), flags).unwrap();
    let pte = pt.translate(vpn).unwrap();
    assert_eq!(pte.ppn(), PhysPageNum(0x8_7654));
    assert_eq!(pte.flags().bits & (PTE_R | PTE_W | PTE_X | PTE_U), flags.bits);
    assert!(pte.is_valid());
    assert_eq!(pte.flags().bits & PTE_V, PTE_V);
    // Only that page is mapped.
    assert_eq!(pt.translate(VirtPageNum(0x12346)), None);
    assert_eq!(pt.translate_addr(VirtAddr(0x1234_5678)), Some(PhysAddr(0x8765_4678)));
    pt.unmap(vpn).unwrap();
    assert_eq!(pt.translate(vpn), None);
}

#[test]
fn page_table_uses_two_intermediate_tables() {
    let mut fa = allocator();
    let mut pt = PageTable::new(&mut fa).unwrap();
    assert_eq!(pt.ppn(), PhysPageNum(0x81000));
    assert_eq!(pt.tables_needed(VirtPageNum(1)), 2);
    pt.map(&mut fa, VirtPageNum(1), PhysPageNum(7), PTEFlags { bits: PTE_R }).unwrap();
    assert_eq!(pt.tables_needed(VirtPageNum(2)), 0);
    assert_eq!(pt.tables_needed(VirtPageNum(512)), 1);
    // Root plus two tables: the next frame is the fourth.
    assert_eq!(Frame::allocate(&mut fa).unwrap().ppn().0, 0x81003);
}

#[test]
fn page_table_errors() {
    let mut fa = allocator();
    let mut pt = PageTable::new(&mut fa).unwrap();
    let vpn = VirtPageNum(42);
    assert_eq!(pt.unmap(vpn), Err(PagingError::NotMapped));
    pt.map(&mut fa, vpn, PhysPageNum(1), PTEFlags { bits: PTE_R }).unwrap();
    assert_eq!(pt.map(&mut fa, vpn, PhysPageNum(2), PTEFlags { bits: PTE_R }), Err(PagingError::AlreadyMapped));
    assert_eq!(pt.translate(vpn).unwrap().ppn(), PhysPageNum(1));
    let mut small = FrameAllocator::new(PhysAddr(0x87ff_f000), PhysAddr(0x8800_0000));
    let mut pt2 = PageTable::new(&mut small).unwrap();
    assert_eq!(pt2.map(&mut small, vpn, PhysPageNum(1), PTEFlags { bits: PTE_R }), Err(PagingError::OutOfFrames));
    assert_eq!(pt2.translate(vpn), None);
}

#[test]
fn pte_fields() {
    let pte = PTE::new(PhysPageNum(0xabc), PTEFlags { bits: PTE_V | PTE_R });
    assert_eq!(pte.bits, (0xabc << 10) | 3);
    assert_eq!(pte.ppn(), PhysPageNum(0xabc));
    assert_eq!(pte.flags(), PTEFlags { bits: 3 });
    assert!(pte.is_valid());
    assert!(!PTE::empty().is_valid());
    assert!(PTEFlags { bits: 7 }.contains(PTEFlags { bits: PTE_W }));
    assert_eq!(PTEFlags::empty().union(PTEFlags { bits: PTE_X }).bits, PTE_X);
}

#[test]
fn map_area_push_collision_changes_nothing() {
    let mut fa = allocator();
    let mut mem = PhysMem::new();
    let mut ms = MemorySet::new_bare(&mut fa).unwrap();
    let rw = MapPermission { bits: MAP_U | MAP_R | MAP_W };
    ms.push(&mut fa, &mut mem, MapArea::frames(VirtPageNum(0x10), VirtPageNum(0x12), rw), None).unwrap();
    let before = ms.table.translate(VirtPageNum(0x11)).unwrap();
    let next_before = fa.has_available(1);
    let r = ms.push(&mut fa, &mut mem, MapArea::frames(VirtPageNum(0x0f), VirtPageNum(0x11), rw), None);
    assert_eq!(r, Err(PagingError::AlreadyMapped));
    assert_eq!(ms.table.translate(VirtPageNum(0x0f)), None);
    assert_eq!(ms.table.translate(VirtPageNum(0x11)), Some(before));
    assert_eq!(ms.areas.len(), 1);
    assert_eq!(fa.has_available(1), next_before);
}

#[test]
fn push_out_of_frames_keeps_the_mapping() {
    let mut fa = FrameAllocator::new(PhysAddr(0x87ff_b000), PhysAddr(0x8800_0000));
    let mut mem = PhysMem::new();
    let mut ms = MemorySet::new_bare(&mut fa).unwrap();
    let rw = MapPermission { bits: MAP_R | MAP_W };
    // Four frames left: two tables and two pages, not three pages.
    let r = ms.push(&mut fa, &mut mem, MapArea::frames(VirtPageNum(0), VirtPageNum(3), rw), None);
    assert_eq!(r, Err(PagingError::OutOfFrames));
    for v in 0..3 {
        assert_eq!(ms.table.translate(VirtPageNum(v)), None);
    }
    assert_eq!(ms.areas.len(), 0);
}

#[test]
fn copy_data_bound() {
    let mut fa = allocator();
    let mut mem = PhysMem::new();
    let mut ms = MemorySet::new_bare(&mut fa).unwrap();
    let data: Vec<u8> = (0..5000u32).map(|i| (i % 251) as u8 + 1).collect();
    let area = MapArea::frames(VirtPageNum(0x20), VirtPageNum(0x23), MapPermission { bits: MAP_R | MAP_W });
    ms.push(&mut fa, &mut mem, area, Some(&data)).unwrap();
    for (i, b) in data.iter().enumerate() {
        let va = 0x20000 + i as u64;
        let pa = ms.table.translate_addr(VirtAddr(va)).unwrap();
        assert_eq!(mem.read_byte(pa.0), *b);
    }
    // Past the data: the rest of the second page and the whole third page.
    for off in [5000u64, 8191, 8192, 12287] {
        let pa = ms.table.translate_addr(VirtAddr(0x20000 + off)).unwrap();
        assert_eq!(mem.read_byte(pa.0), 0);
    }
}

#[test]
fn copy_data_truncates_long_data() {
    let mut fa = allocator();
    let mut mem = PhysMem::new();
    let mut ms = MemorySet::new_bare(&mut fa).unwrap();
    let data = vec![0x5au8; 4096 + 100];
    let area = MapArea::frames(VirtPageNum(0x30), VirtPageNum(0x31), MapPermission { bits: MAP_R });
    ms.push(&mut fa, &mut mem, area, Some(&data)).unwrap();
    let pa = ms.table.translate_addr(VirtAddr(0x30fff)).unwrap();
    assert_eq!(mem.read_byte(pa.0), 0x5a);
    assert_eq!(ms.table.translate(VirtPageNum(0x31)), None);
}

#[test]
fn linear_and_identity_areas() {
    let mut fa = allocator();
    let mut mem = PhysMem::new();
    let mut ms = MemorySet::new_bare(&mut fa).unwrap();
    let r = MapPermission { bits: MAP_R };
    let lin = MapArea::linear(PhysPageNum(0x500), PhysPageNum(0x503), VirtPageNum(0x60000), r);
    assert_eq!(lin.vpn_end, VirtPageNum(0x60003));
    ms.push(&mut fa, &mut mem, lin, None).unwrap();
    assert_eq!(ms.table.translate(VirtPageNum(0x60002)).unwrap().ppn(), PhysPageNum(0x502));
    let ident = MapArea::new(VirtAddr(0x1000_0000), VirtAddr(0x1000_1000), MapTarget::Identical, r);
    ms.push(&mut fa, &mut mem, ident, None).unwrap();
    assert_eq!(ms.table.translate(VirtPageNum(0x10000)).unwrap().ppn(), PhysPageNum(0x10000));
    ms.insert_framed_area(&mut fa, &mut mem, VirtAddr(0x4000_0800), VirtAddr(0x4000_1800), r).unwrap();
    assert!(ms.table.translate(VirtPageNum(0x40000)).is_some());
    assert!(ms.table.translate(VirtPageNum(0x40001)).is_some());
    assert_eq!(ms.areas.len(), 3);
}

#[test]
fn map_one_and_unmapped_pages() {
    let mut fa = allocator();
    let mut pt = PageTable::new(&mut fa).unwrap();
    let mut area = MapArea::frames(VirtPageNum(8), VirtPageNum(10), MapPermission { bits: MAP_R });
    area.map_one(&mut pt, &mut fa, VirtPageNum(9)).unwrap();
    assert!(pt.translate(VirtPageNum(9)).is_some());
    assert!(pt.translate(VirtPageNum(8)).is_none());
    let mut other = MapArea::frames(VirtPageNum(9), VirtPageNum(10), MapPermission { bits: MAP_R });
    assert_eq!(other.map_one(&mut pt, &mut fa, VirtPageNum(9)), Err(PagingError::AlreadyMapped));
}

#[test]
fn permission_bits() {
    assert_eq!(MapPermission::from_bits(MAP_R | MAP_W), Some(MapPermission { bits: 6 }));
    assert_eq!(MapPermission::from_bits(1), None);
    assert!(MapPermission { bits: 6 }.contains(MapPermission { bits: MAP_W }));
    assert_eq!(MapPermission::empty().union(MapPermission { bits: MAP_U }).bits, 16);
}

#[test]
fn physical_words_read_back() {
    let mut mem = PhysMem::new();
    assert_eq!(mem.read_u64(0x8000_0ffc), 0);
    mem.write_u64(0x8000_0ffc, 0x1122_3344_5566_7788);
    assert_eq!(mem.read_u64(0x8000_0ffc), 0x1122_3344_5566_7788);
    assert_eq!(mem.read_byte(0x8000_0ffc), 0x88);
    assert_eq!(mem.read_byte(0x8000_1003), 0x11);
    mem.zero_page(0x80001);
    assert_eq!(mem.read_byte(0x8000_1003), 0);
    assert_eq!(mem.read_byte(0x8000_0ffc), 0x88);
}

#[test]
fn unmapping_an_area_returns_its_frames() {
    let mut fa = allocator();
    let mut mem = PhysMem::new();
    let mut ms = MemorySet::new_bare(&mut fa).unwrap();
    let area = MapArea::frames(VirtPageNum(0x40), VirtPageNum(0x42), MapPermission { bits: MAP_R });
    ms.push(&mut fa, &mut mem, area, None).unwrap();
    let f0 = ms.table.translate(VirtPageNum(0x40)).unwrap().ppn().0;
    let f1 = ms.table.translate(VirtPageNum(0x41)).unwrap().ppn().0;
    let MemorySet { table, areas } = &mut ms;
    assert_eq!(areas[0].unmap_one(table, &mut fa, VirtPageNum(0x41)), Ok(()));
    assert_eq!(table.translate(VirtPageNum(0x41)), None);
    assert_eq!(areas[0].unmap_one(table, &mut fa, VirtPageNum(0x41)), Err(PagingError::NotMapped));
    assert_eq!(Frame::allocate(&mut fa).unwrap().ppn().0, f1);
    areas[0].map_one(table, &mut fa, VirtPageNum(0x41)).unwrap();
    areas[0].unmap(table, &mut fa);
    assert_eq!(table.translate(VirtPageNum(0x40)), None);
    assert_eq!(table.translate(VirtPageNum(0x41)), None);
    let mut back = vec![Frame::allocate(&mut fa).unwrap().ppn().0, Frame::allocate(&mut fa).unwrap().ppn().0];
    back.sort();
    assert!(back.contains(&f0));
}

fn word_at(bytes: &[u8], i: usize) -> u64 {
    let mut w = [0u8; 8];
    w.copy_from_slice(&bytes[8 * i..8 * i + 8]);
    u64::from_le_bytes(w)
}

#[test]
fn table_frames_walk_like_the_hardware() {
    let mut fa = allocator();
    let mut pt = PageTable::new(&mut fa).unwrap();
    let vpn = VirtPageNum(0x1_2345);
    pt.map(&mut fa, vpn, PhysPageNum(0x8_7654), PTEFlags { bits: PTE_R | PTE_W }).unwrap();
    let pages = pt.table_pages();
    assert_eq!(pages.len(), 3);
    assert_eq!(pages[0].0, pt.ppn().0);
    let find = |ppn: u64| pages.iter().find(|p| p.0 == ppn).unwrap().1.clone();
    let idx = vpn.indexes();
    let mut table = pages[0].1.clone();
    for level in 0..2 {
        let e = word_at(&table, idx[level]);
        assert_eq!(e & 0xf, 1);
        table = find(e >> 10);
    }
    let leaf = word_at(&table, idx[2]);
    assert_eq!(leaf >> 10, 0x8_7654);
    assert_eq!(leaf & 0xff, (PTE_V | PTE_R | PTE_W) as u64);
    assert!(pages.iter().all(|p| p.1.len() == 4096));
}

#[test]
fn written_pages_hold_the_bytes() {
    let mut mem = PhysMem::new();
    mem.write_u64(0x8000_2008, 0xabcd);
    let pages = mem.written_pages();
    assert_eq!(pages.len(), 1);
    assert_eq!(pages[0].0, 0x80002);
    assert_eq!(word_at(&pages[0].1, 1), 0xabcd);
}
