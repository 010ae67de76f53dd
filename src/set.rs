//! Map areas (a page range, permissions and one of three backing kinds) and
//! address spaces built from them.
use vstd::prelude::*;
use crate::addr::{PhysPageNum, VirtAddr, VirtPageNum, page_ceil, page_floor};
use crate::frame::{AllocState, Frame, FrameAllocator, lemma_after_alloc};
use crate::paging::{PTE, PTEFlags, PageTable, PagingError, PTE_V, pte_bits};
use crate::physmem::PhysMem;
use crate::consts::{PHYS_MEMORY_END, PROCESS_STACK_TOP, SERIAL_BASE};

verus! {

pub const MAP_R: u8 = 2;

pub const MAP_W: u8 = 4;

pub const MAP_X: u8 = 8;

pub const MAP_U: u8 = 16;

/// `R, W, X, U`, at the bit positions of the same page-table flags.
#[derive(Clone, Copy, PartialEq, Eq, Structural, Debug)]
pub struct MapPermission {
    pub bits: u8,
}

impl MapPermission {
    pub fn empty() -> (r: MapPermission)
        ensures
            r.bits == 0,
    {
        MapPermission { bits: 0 }
    }

    /// `None` when `bits` holds a bit other than `R, W, X, U`.
    pub fn from_bits(bits: u8) -> (r: Option<MapPermission>)
        ensures
            r == (if bits & 0xe1 == 0 {
                Some(MapPermission { bits })
            } else {
                None
            }),
    {
        if bits & 0xe1 == 0 {
            Some(MapPermission { bits })
        } else {
            None
        }
    }

    pub fn union(&self, other: MapPermission) -> (r: MapPermission)
        ensures
            r.bits == self.bits | other.bits,
    {
        MapPermission { bits: self.bits | other.bits }
    }

    pub fn contains(&self, other: MapPermission) -> (r: bool)
        ensures
            r == (self.bits & other.bits == other.bits),
    {
        self.bits & other.bits == other.bits
    }
}

/// How the pages of an area find their frames.
pub enum MapTarget {
    /// Each page maps to the physical page of the same number.
    Identical,
    /// Each page owns a frame of its own, allocated when it is mapped.
    Framed { frames: Vec<(VirtPageNum, Frame)> },
    /// Each page maps to a given physical page that the area does not own.
    Remote { remote: Vec<(VirtPageNum, PhysPageNum)> },
}

/// The pages `[vpn_start, vpn_end)`, their permissions and their backing.
pub struct MapArea {
    pub vpn_start: VirtPageNum,
    pub vpn_end: VirtPageNum,
    pub perm: MapPermission,
    pub target: MapTarget,
}

impl MapArea {
    /// The frame that a framed area's list holds for page `v`.
    pub open spec fn framed_lookup(frames: Seq<(VirtPageNum, Frame)>, v: int) -> Option<u64> {
        if exists|i: int| 0 <= i < frames.len() && frames[i].0.0 == v {
            Some(frames[choose|i: int| 0 <= i < frames.len() && frames[i].0.0 == v].1.number())
        } else {
            None
        }
    }

    /// The physical page that a remote area's list holds for page `v`.
    pub open spec fn remote_lookup(remote: Seq<(VirtPageNum, PhysPageNum)>, v: int) -> Option<u64> {
        if exists|i: int| 0 <= i < remote.len() && remote[i].0.0 == v {
            Some(remote[choose|i: int| 0 <= i < remote.len() && remote[i].0.0 == v].1.0)
        } else {
            None
        }
    }

    /// The physical page behind virtual page `v`, if the area has one.
    pub open spec fn target_of(&self, v: int) -> Option<u64> {
        match self.target {
            MapTarget::Identical => Some(v as u64),
            MapTarget::Framed { frames } => MapArea::framed_lookup(frames@, v),
            MapTarget::Remote { remote } => MapArea::remote_lookup(remote@, v),
        }
    }

    pub open spec fn in_range(&self, v: int) -> bool {
        self.vpn_start.0 <= v < self.vpn_end.0
    }

    pub open spec fn wf(&self) -> bool {
        &&& self.vpn_start.0 <= self.vpn_end.0 <= 0x800_0000
        &&& self.perm.bits & 0xe1 == 0
        &&& match self.target {
            MapTarget::Identical => true,
            MapTarget::Framed { frames } => {
                &&& forall|i: int| 0 <= i < frames.len() ==> self.in_range((#[trigger] frames[i]).0.0 as int)
                &&& forall|i: int| 0 <= i < frames.len() ==> (#[trigger] frames[i]).1.number() < 0x1000_0000_0000
                &&& forall|i: int, j: int|
                    0 <= i < frames.len() && 0 <= j < frames.len() && i != j
                        ==> (#[trigger] frames[i]).0 != (#[trigger] frames[j]).0
                        && frames[i].1.number() != frames[j].1.number()
            },
            MapTarget::Remote { remote } => {
                &&& forall|i: int| 0 <= i < remote.len() ==> self.in_range((#[trigger] remote[i]).0.0 as int)
                &&& forall|i: int| 0 <= i < remote.len() ==> (#[trigger] remote[i]).1.0 < 0x1000_0000_0000
                &&& forall|i: int, j: int|
                    0 <= i < remote.len() && 0 <= j < remote.len() && i != j
                        ==> (#[trigger] remote[i]).0 != (#[trigger] remote[j]).0
                        && remote[i].1 != remote[j].1
            },
        }
    }

    /// Every frame the area owns is one that the allocator has handed out.
    pub open spec fn lent_from(&self, a: AllocState) -> bool {
        match self.target {
            MapTarget::Framed { frames } => forall|i: int|
                0 <= i < frames.len() ==> a.lent(#[trigger] frames[i].1.number()),
            _ => true,
        }
    }

    /// None of the area's frames is a frame of table `t`.
    pub open spec fn frames_outside(&self, t: &PageTable) -> bool {
        match self.target {
            MapTarget::Framed { frames } => forall|i: int|
                0 <= i < frames.len() ==> !t.owns(#[trigger] frames[i].1.number()),
            _ => true,
        }
    }

    /// Page `v` can be mapped: a framed page has no frame yet, a remote page
    /// has its physical page.
    pub open spec fn ready_for(&self, v: int) -> bool {
        match self.target {
            MapTarget::Identical => true,
            MapTarget::Framed { .. } => self.target_of(v) is None,
            MapTarget::Remote { .. } => self.target_of(v) is Some,
        }
    }

    /// Frames that mapping one page takes for its own backing.
    pub open spec fn own_frames(&self) -> nat {
        if self.target is Framed {
            1
        } else {
            0
        }
    }

    /// The leaf entry that the area gives page `v`.
    pub open spec fn leaf(&self, v: int) -> PTE {
        PTE { bits: pte_bits(self.target_of(v).unwrap(), self.perm.bits | PTE_V) }
    }

    /// The leaves of the whole area.
    pub open spec fn area_mapping(&self) -> Map<int, PTE> {
        Map::new(|v: int| self.in_range(v), |v: int| self.leaf(v))
    }

    pub open spec fn same_shape(&self, other: &MapArea) -> bool {
        &&& self.vpn_start == other.vpn_start
        &&& self.vpn_end == other.vpn_end
        &&& self.perm == other.perm
        &&& (self.target is Identical <==> other.target is Identical)
        &&& (self.target is Framed <==> other.target is Framed)
        &&& (self.target is Remote <==> other.target is Remote)
    }
}

impl MapArea {
    /// The pages that cover `[start_va, end_va)`.
    pub fn new(start_va: VirtAddr, end_va: VirtAddr, target: MapTarget, perm: MapPermission) -> (r: MapArea)
        requires
            start_va.0 <= end_va.0 <= 0x80_0000_0000,
            perm.bits & 0xe1 == 0,
            match target {
                MapTarget::Identical => true,
                MapTarget::Framed { frames } => frames.len() == 0,
                MapTarget::Remote { remote } => remote.len() == 0,
            },
        ensures
            r.wf(),
            r.vpn_start.0 == page_floor(start_va.0 as int),
            r.vpn_end.0 == page_ceil(end_va.0 as int),
            r.perm == perm,
            r.target == target,
    {
        let vpn_start = start_va.floor();
        let vpn_end = end_va.ceil();
        MapArea { vpn_start, vpn_end, target, perm }
    }

    /// A framed area over `[start, end)` that holds no frame yet: each page
    /// gets a fresh frame of its own when it is mapped (`map_one`, `map`,
    /// `MemorySet::push`), so that an area that cannot be mapped takes no
    /// frames. After `map` every page owns a distinct frame.
    pub fn frames(start: VirtPageNum, end: VirtPageNum, perm: MapPermission) -> (r: MapArea)
        requires
            start.0 <= end.0 <= 0x800_0000,
            perm.bits & 0xe1 == 0,
        ensures
            r.wf(),
            r.vpn_start == start,
            r.vpn_end == end,
            r.perm == perm,
            r.target matches MapTarget::Framed { frames } && frames.len() == 0,
    {
        MapArea { vpn_start: start, vpn_end: end, perm, target: MapTarget::Framed { frames: Vec::new() } }
    }

    /// A remote area that maps the pages from `base` on to the physical pages
    /// `[ppn_start, ppn_end)`, in order.
    pub fn linear(ppn_start: PhysPageNum, ppn_end: PhysPageNum, base: VirtPageNum, perm: MapPermission) -> (r: MapArea)
        requires
            ppn_start.0 <= ppn_end.0 <= 0x1000_0000_0000,
            base.0 + (ppn_end.0 - ppn_start.0) <= 0x800_0000,
            perm.bits & 0xe1 == 0,
        ensures
            r.wf(),
            r.vpn_start == base,
            r.vpn_end.0 == base.0 + (ppn_end.0 - ppn_start.0),
            r.perm == perm,
            r.target is Remote,
            forall|v: int| #[trigger] r.in_range(v) ==> r.target_of(v) == Some((ppn_start.0 + (v - base.0)) as u64),
    {
        let mut remote: Vec<(VirtPageNum, PhysPageNum)> = Vec::new();
        let mut p = ppn_start.0;
        let mut v = base.0;
        while p < ppn_end.0
            invariant
                ppn_start.0 <= p <= ppn_end.0 <= 0x1000_0000_0000,
                v == base.0 + (p - ppn_start.0),
                base.0 + (ppn_end.0 - ppn_start.0) <= 0x800_0000,
                remote.len() == p - ppn_start.0,
                forall|i: int| 0 <= i < remote.len() ==> (#[trigger] remote@[i]).0.0 == base.0 + i
                    && remote@[i].1.0 == ppn_start.0 + i,
            decreases ppn_end.0 - p,
        {
            remote.push((VirtPageNum(v), PhysPageNum(p)));
            p = p + 1;
            v = v + 1;
        }
        let r = MapArea {
            vpn_start: base,
            vpn_end: VirtPageNum(v),
            perm,
            target: MapTarget::Remote { remote },
        };
        assert forall|w: int| #[trigger] r.in_range(w) implies r.target_of(w) == Some((ppn_start.0 + (w - base.0)) as u64) by {
            let i = w - base.0;
            if let MapTarget::Remote { remote: rm } = r.target {
                assert(rm[i].0.0 == w);
                assert(exists|k: int| 0 <= k < rm.len() && rm[k].0.0 == w);
                let k = choose|k: int| 0 <= k < rm.len() && rm[k].0.0 == w;
                assert(k == i);
            }
        }
        r
    }

    /// Looks up the physical page that a remote area gives `vpn`.
    fn remote_ppn(remote: &Vec<(VirtPageNum, PhysPageNum)>, vpn: VirtPageNum) -> (r: Option<PhysPageNum>)
        ensures
            (r matches Some(p) ==> exists|i: int| 0 <= i < remote.len() && remote@[i].0 == vpn && remote@[i].1 == p),
            (r is None ==> forall|i: int| 0 <= i < remote.len() ==> remote@[i].0 != vpn),
    {
        let mut i: usize = 0;
        while i < remote.len()
            invariant
                i <= remote.len(),
                forall|k: int| 0 <= k < i ==> remote@[k].0 != vpn,
            decreases remote.len() - i,
        {
            if remote[i].0.0 == vpn.0 {
                return Some(remote[i].1);
            }
            i = i + 1;
        }
        None
    }

    /// Maps one page of the area: its target is the same page number, a
    /// freshly allocated frame, or its given physical page. Refused, with
    /// nothing changed, when the page is mapped already or frames run out.
    pub fn map_one(&mut self, table: &mut PageTable, frames: &mut FrameAllocator, vpn: VirtPageNum) -> (r: Result<(), PagingError>)
        requires
            old(self).wf(),
            old(table).wf(),
            old(frames)@.wf(),
            old(table).lent_from(old(frames)@),
            old(self).lent_from(old(frames)@),
            old(self).in_range(vpn.0 as int),
            old(self).ready_for(vpn.0 as int),
        ensures
            final(self).wf(),
            final(table).wf(),
            final(frames)@.wf(),
            final(table).lent_from(final(frames)@),
            final(self).lent_from(final(frames)@),
            final(table).root() == old(table).root(),
            final(self).same_shape(old(self)),
            forall|p: int| #[trigger] final(frames)@.holds(p) ==> old(frames)@.holds(p),
            forall|p: u64| #[trigger] old(frames)@.lent(p) ==> final(frames)@.lent(p),
            old(table).frames_needed(vpn.0 as int) <= 2,
            (r is Ok) <==> (!old(table).mapping().contains_key(vpn.0 as int) && old(frames)@.available()
                >= old(table).frames_needed(vpn.0 as int) + old(self).own_frames()),
            (r == Err::<(), PagingError>(PagingError::AlreadyMapped)) <==> old(table).mapping().contains_key(vpn.0 as int),
            (r is Err ==> *final(self) == *old(self) && *final(table) == *old(table) && *final(frames) == *old(frames)),
            (r is Ok ==> final(self).target_of(vpn.0 as int) is Some),
            (r is Ok && old(self).target is Framed ==> old(frames)@.holds(final(self).target_of(vpn.0 as int).unwrap() as int)
                && final(frames)@.lent(final(self).target_of(vpn.0 as int).unwrap())),
            (!(old(self).target is Framed) ==> *final(self) == *old(self)),
            (r is Ok ==> final(table).mapping() == old(table).mapping().insert(vpn.0 as int, final(self).leaf(vpn.0 as int))),
            (r is Ok ==> forall|w: int| w != vpn.0 ==> #[trigger] final(self).target_of(w) == old(self).target_of(w)),
            (r is Ok ==> final(frames)@.available() == old(frames)@.available() - old(table).frames_needed(vpn.0 as int)
                - old(self).own_frames()),
    {
        let ghost a0 = frames@;
        let ghost s0 = *self;
        let ghost v = vpn.0 as int;
        let tn = table.tables_needed(vpn);
        if table.translate(vpn).is_some() {
            return Err(PagingError::AlreadyMapped);
        }
        let framed = match &self.target {
            MapTarget::Framed { .. } => true,
            _ => false,
        };
        let need = tn + if framed {
            1
        } else {
            0
        };
        if !frames.has_available(need) {
            return Err(PagingError::OutOfFrames);
        }
        proof {
            lemma_after_alloc(frames@);
        }
        let ppn = match &mut self.target {
            MapTarget::Identical => PhysPageNum(vpn.0),
            MapTarget::Framed { frames: owned } => {
                let f = match Frame::allocate(frames) {
                    Some(f) => f,
                    None => {
                        return Err(PagingError::OutOfFrames);
                    },
                };
                let p = f.ppn();
                let ghost n = f.number();
                let ghost before = owned@;
                owned.push((vpn, f));
                proof {
                    assert forall|i: int| 0 <= i < before.len() implies (#[trigger] before[i]).1.number() != n by {
                        assert(a0.lent(before[i].1.number()));
                    }
                    assert forall|i: int| 0 <= i < before.len() implies (#[trigger] before[i]).0 != vpn by {
                        assert(before[i].0.0 != v);
                    }
                }
                p
            },
            MapTarget::Remote { remote } => {
                match MapArea::remote_ppn(remote, vpn) {
                    Some(p) => p,
                    None => {
                        return Err(PagingError::OutOfFrames);
                    },
                }
            },
        };
        let ghost s1 = *self;
        proof {
            match s1.target {
                MapTarget::Framed { frames: fl } => {
                    let i = fl.len() - 1;
                    assert(fl[i].0.0 == v);
                    let k = choose|k: int| 0 <= k < fl.len() && fl[k].0.0 == v;
                    assert(k == i);
                    assert(s1.target_of(v) == Some(ppn.0));
                    assert forall|w: int| w != v implies #[trigger] s1.target_of(w) == s0.target_of(w) by {
                        if let MapTarget::Framed { frames: fo } = s0.target {
                            assert(fl@.drop_last() == fo@);
                            if exists|k: int| 0 <= k < fl.len() && fl[k].0.0 == w {
                                let k = choose|k: int| 0 <= k < fl.len() && fl[k].0.0 == w;
                                assert(fo[k] == fl[k]);
                            }
                            if exists|k: int| 0 <= k < fo.len() && fo[k].0.0 == w {
                                let k = choose|k: int| 0 <= k < fo.len() && fo[k].0.0 == w;
                                assert(fo[k] == fl[k]);
                            }
                        }
                    }
                    assert forall|k: int| 0 <= k < fl.len() implies frames@.lent(#[trigger] fl[k].1.number()) by {
                        if k < i {
                            if let MapTarget::Framed { frames: fo } = s0.target {
                                assert(fo@ == fl@.drop_last());
                                assert(a0.lent(fo[k].1.number()));
                            }
                        }
                    }
                },
                MapTarget::Remote { remote: rm } => {
                    let i = choose|i: int| 0 <= i < rm.len() && rm[i].0 == vpn && rm[i].1 == ppn;
                    let k = choose|k: int| 0 <= k < rm.len() && rm[k].0.0 == v;
                    assert(k == i);
                },
                MapTarget::Identical => {},
            }
        }
        proof {
            table.lemma_lent_mono(a0, frames@);
        }
        let flags = PTEFlags { bits: self.perm.bits };
        let res = table.map(frames, vpn, ppn, flags);
        match res {
            Ok(()) => Ok(()),
            Err(e) => {
                proof {
                    assert(false);
                }
                Err(e)
            },
        }
    }

    /// Targets are page numbers of 44 bits.
    pub proof fn lemma_target_bound(&self, v: int)
        requires
            self.wf(),
            self.in_range(v),
            self.target_of(v) is Some,
        ensures
            self.target_of(v).unwrap() < 0x1000_0000_0000,
    {
        match self.target {
            MapTarget::Identical => {},
            MapTarget::Framed { frames } => {
                let k = choose|k: int| 0 <= k < frames.len() && frames[k].0.0 == v;
                assert(frames[k].1.number() < 0x1000_0000_0000);
            },
            MapTarget::Remote { remote } => {
                let k = choose|k: int| 0 <= k < remote.len() && remote[k].0.0 == v;
                assert(remote[k].1.0 < 0x1000_0000_0000);
            },
        }
    }

    /// Distinct pages of an area have distinct targets.
    pub proof fn lemma_targets_distinct(&self, u: int, w: int)
        requires
            self.wf(),
            u != w,
            self.target_of(u) is Some,
            self.target_of(w) is Some,
            0 <= u,
            0 <= w,
            self.in_range(u),
            self.in_range(w),
        ensures
            self.target_of(u) != self.target_of(w),
    {
        match self.target {
            MapTarget::Identical => {},
            MapTarget::Framed { frames } => {
                let i = choose|i: int| 0 <= i < frames.len() && frames[i].0.0 == u;
                let j = choose|j: int| 0 <= j < frames.len() && frames[j].0.0 == w;
                assert(i != j);
            },
            MapTarget::Remote { remote } => {
                let i = choose|i: int| 0 <= i < remote.len() && remote[i].0.0 == u;
                let j = choose|j: int| 0 <= j < remote.len() && remote[j].0.0 == w;
                assert(i != j);
            },
        }
    }

    /// Maps every page of the area, in order. Each page takes at most three
    /// frames: its own and two intermediate tables, so the mapping succeeds
    /// when three frames per page are left. When frames run out the pages
    /// mapped so far are unmapped again: the table maps what it did before.
    pub fn map(&mut self, table: &mut PageTable, frames: &mut FrameAllocator) -> (r: Result<(), PagingError>)
        requires
            old(self).wf(),
            old(table).wf(),
            old(frames)@.wf(),
            old(table).lent_from(old(frames)@),
            old(self).lent_from(old(frames)@),
            forall|v: int| #[trigger] old(self).in_range(v) ==> !old(table).mapping().contains_key(v) && old(self).ready_for(v),
        ensures
            final(self).wf(),
            final(table).wf(),
            final(frames)@.wf(),
            final(table).lent_from(final(frames)@),
            final(self).lent_from(final(frames)@),
            final(table).root() == old(table).root(),
            final(self).same_shape(old(self)),
            forall|p: int| #[trigger] final(frames)@.holds(p) ==> old(frames)@.holds(p),
            forall|p: u64| #[trigger] old(frames)@.lent(p) ==> final(frames)@.lent(p),
            (old(frames)@.available() >= 3 * (old(self).vpn_end.0 - old(self).vpn_start.0) ==> r is Ok),
            (r is Err ==> r == Err::<(), PagingError>(PagingError::OutOfFrames) && final(table).mapping() == old(table).mapping()),
            (r is Ok ==> forall|v: int| #[trigger] final(self).in_range(v) ==> final(self).target_of(v) is Some),
            (r is Ok ==> forall|w: int| !old(self).in_range(w) ==> #[trigger] final(self).target_of(w) == old(self).target_of(w)),
            (r is Ok && old(self).target is Framed ==> forall|v: int| #[trigger] final(self).in_range(v) ==> old(frames)@.holds(
                final(self).target_of(v).unwrap() as int,
            ) && final(frames)@.lent(final(self).target_of(v).unwrap())),
            (r is Ok ==> final(table).mapping() == old(table).mapping().union_prefer_right(final(self).area_mapping())),
            (r is Ok ==> final(frames)@.available() >= old(frames)@.available() - 3 * (old(self).vpn_end.0 - old(self).vpn_start.0)),
            (!(old(self).target is Framed) ==> *final(self) == *old(self)),
    {
        let ghost m0 = table.mapping();
        let ghost s0 = *old(self);
        let ghost a0 = frames@;
        let mut v = self.vpn_start.0;
        let end = self.vpn_end.0;
        assert forall|u: int| v <= u < end implies !#[trigger] table.mapping().contains_key(u) by {
            assert(s0.in_range(u));
        }
        assert(table.mapping() =~= m0.union_prefer_right(
            Map::new(|u: int| s0.vpn_start.0 <= u < v, |u: int| self.leaf(u)),
        ));
        while v < end
            invariant
                self.wf(),
                table.wf(),
                frames@.wf(),
                table.lent_from(frames@),
                self.lent_from(frames@),
                table.root() == old(table).root(),
                self.same_shape(&s0),
                end == s0.vpn_end.0,
                s0.vpn_start.0 <= v <= end,
                forall|p: int| #[trigger] frames@.holds(p) ==> a0.holds(p),
                forall|p: u64| #[trigger] a0.lent(p) ==> frames@.lent(p),
                forall|u: int| s0.vpn_start.0 <= u < v ==> #[trigger] self.target_of(u) is Some,
                forall|w: int| (w < s0.vpn_start.0 || w >= v) ==> #[trigger] self.target_of(w) == s0.target_of(w),
                forall|u: int| v <= u < end ==> !#[trigger] table.mapping().contains_key(u),
                forall|u: int| #[trigger] m0.contains_key(u) ==> !s0.in_range(u),
                s0.target is Framed ==> forall|u: int| s0.vpn_start.0 <= u < v ==> a0.holds(#[trigger] self.target_of(u).unwrap() as int)
                    && frames@.lent(self.target_of(u).unwrap()),
                table.mapping() == m0.union_prefer_right(
                    Map::new(|u: int| s0.vpn_start.0 <= u < v, |u: int| self.leaf(u)),
                ),
                a0.available() >= 3 * (end - s0.vpn_start.0) ==> frames@.available() >= 3 * (end - v),
                frames@.available() >= a0.available() - 3 * (v - s0.vpn_start.0),
                forall|u: int| #[trigger] s0.in_range(u) ==> s0.ready_for(u),
                !(s0.target is Framed) ==> *self == s0,
                s0 == *old(self),
                m0 == old(table).mapping(),
                a0 == old(frames)@,
            decreases end - v,
        {
            let ghost before = *self;
            let ghost mb = table.mapping();
            assert(self.in_range(v as int));
            assert(s0.in_range(v as int));
            assert(self.ready_for(v as int)) by {
                assert(self.target_of(v as int) == s0.target_of(v as int));
            }
            let r = self.map_one(table, frames, VirtPageNum(v));
            if r.is_err() {
                // Give back the pages mapped so far.
                let mut w = self.vpn_start.0;
                while w < v
                    invariant
                        table.wf(),
                        table.lent_from(frames@),
                        table.root() == old(table).root(),
                        self.wf(),
                        self.same_shape(&s0),
                        self.lent_from(frames@),
                        frames@.wf(),
                        forall|p: int| #[trigger] frames@.holds(p) ==> a0.holds(p),
                        forall|p: u64| #[trigger] a0.lent(p) ==> frames@.lent(p),
                        !(s0.target is Framed) ==> *self == s0,
                        s0 == *old(self),
                        m0 == old(table).mapping(),
                        a0 == old(frames)@,
                        end <= 0x800_0000,
                        s0.vpn_start.0 <= w <= v,
                        forall|u: int| #[trigger] m0.contains_key(u) ==> !s0.in_range(u),
                        v < end,
                        end == s0.vpn_end.0,
                        table.mapping() == m0.union_prefer_right(
                            Map::new(|u: int| w <= u < v, |u: int| self.leaf(u)),
                        ),
                    decreases v - w,
                {
                    assert(table.mapping().contains_key(w as int));
                    let ghost mw = table.mapping();
                    let _ = table.unmap(VirtPageNum(w));
                    proof {
                        assert(!m0.contains_key(w as int)) by {
                            if m0.contains_key(w as int) {
                                assert(s0.in_range(w as int));
                            }
                        }
                        assert(table.mapping() =~= m0.union_prefer_right(
                            Map::new(|u: int| w + 1 <= u < v, |u: int| self.leaf(u)),
                        ));
                    }
                    w = w + 1;
                }
                proof {
                    assert(table.mapping() =~= m0);
                }
                return Err(PagingError::OutOfFrames);
            }
            proof {
                assert forall|u: int| s0.vpn_start.0 <= u < v implies #[trigger] self.leaf(u) == before.leaf(u) by {
                    assert(self.target_of(u) == before.target_of(u));
                }
                assert(table.mapping() =~= m0.union_prefer_right(
                    Map::new(|u: int| s0.vpn_start.0 <= u < v + 1, |u: int| self.leaf(u)),
                ));
            }
            v = v + 1;
        }
        proof {
            assert(Map::new(|u: int| s0.vpn_start.0 <= u < v, |u: int| self.leaf(u)) =~= self.area_mapping());
        }
        Ok(())
    }

    /// Unmaps one page of the area: a framed page's frame goes back to the
    /// allocator, a remote page forgets its physical page. Refused, with
    /// nothing changed, when the page has no valid leaf.
    pub fn unmap_one(&mut self, table: &mut PageTable, frames: &mut FrameAllocator, vpn: VirtPageNum) -> (r: Result<(), PagingError>)
        requires
            old(self).wf(),
            old(table).wf(),
            old(frames)@.wf(),
            old(table).lent_from(old(frames)@),
            old(self).lent_from(old(frames)@),
            old(self).frames_outside(&*old(table)),
            old(self).in_range(vpn.0 as int),
        ensures
            final(self).wf(),
            final(table).wf(),
            final(frames)@.wf(),
            final(table).lent_from(final(frames)@),
            final(self).lent_from(final(frames)@),
            final(self).frames_outside(&*final(table)),
            final(table).root() == old(table).root(),
            final(self).same_shape(old(self)),
            (r is Ok) <==> old(table).mapping().contains_key(vpn.0 as int),
            (r is Err ==> r == Err::<(), PagingError>(PagingError::NotMapped) && *final(self) == *old(self)
                && *final(table) == *old(table) && *final(frames) == *old(frames)),
            (r is Ok ==> final(table).mapping() == old(table).mapping().remove(vpn.0 as int)),
            (r is Ok ==> final(self).target_of(vpn.0 as int) == if old(self).target is Identical {
                Some(vpn.0)
            } else {
                None
            }),
            (r is Ok ==> forall|w: int| w != vpn.0 ==> #[trigger] final(self).target_of(w) == old(self).target_of(w)),
            (r is Ok && old(self).target is Framed && old(self).target_of(vpn.0 as int) is Some ==> final(frames)@
                == old(frames)@.after_free(old(self).target_of(vpn.0 as int).unwrap())),
            (r is Ok && !(old(self).target is Framed && old(self).target_of(vpn.0 as int) is Some) ==> *final(frames)
                == *old(frames)),
    {
        let ghost s0 = *self;
        let ghost t0 = *table;
        let ghost a0 = frames@;
        let ghost v = vpn.0 as int;
        if table.translate(vpn).is_none() {
            return Err(PagingError::NotMapped);
        }
        match &mut self.target {
            MapTarget::Identical => {},
            MapTarget::Framed { frames: owned } => {
                let mut i: usize = 0;
                while i < owned.len()
                    invariant
                        i <= owned@.len(),
                        forall|k: int| 0 <= k < i ==> owned@[k].0 != vpn,
                    ensures
                        i <= owned@.len(),
                        forall|k: int| 0 <= k < i ==> owned@[k].0 != vpn,
                        i < owned@.len() ==> owned@[i as int].0 == vpn,
                    decreases owned@.len() - i,
                {
                    if owned[i].0.0 == vpn.0 {
                        break;
                    }
                    i = i + 1;
                }
                if i < owned.len() {
                    let ghost before = owned@;
                    proof {
                        if let MapTarget::Framed { frames: fo } = s0.target {
                            assert(fo@ == before);
                        }
                    }
                    let (_, f) = owned.remove(i);
                    proof {
                        assert(before[i as int].1 == f);
                        assert(a0.lent(f.number()));
                        assert(!t0.owns(f.number()));
                        t0.lemma_lent_after_free(a0, f.number());
                        assert forall|k: int| 0 <= k < owned@.len() implies (#[trigger] owned@[k]).0 != vpn by {
                            if k >= i {
                                assert(owned@[k] == before[k + 1]);
                                if let MapTarget::Framed { frames: fo } = s0.target {
                                    assert(fo[k + 1].0 != fo[i as int].0);
                                }
                            }
                        }
                        assert forall|k: int| 0 <= k < owned@.len() implies a0.after_free(f.number()).lent(#[trigger] owned@[k].1.number()) by {
                            let j = if k < i { k } else { k + 1 };
                            assert(owned@[k] == before[j]);
                            assert(a0.lent(before[j].1.number()));
                            assert(before[j].1.number() != f.number());
                            let q = before[j].1.number();
                            if a0.after_free(f.number()).free.contains(q) {
                                let m = choose|m: int| 0 <= m < a0.after_free(f.number()).free.len() && a0.after_free(f.number()).free[m] == q;
                                if m > 0 {
                                    assert(a0.free[m - 1] == q);
                                }
                            }
                        }
                        assert forall|w: int| w != v implies #[trigger] MapArea::framed_lookup(owned@, w) == MapArea::framed_lookup(before, w) by {
                            if exists|k: int| 0 <= k < owned@.len() && owned@[k].0.0 == w {
                                let k = choose|k: int| 0 <= k < owned@.len() && owned@[k].0.0 == w;
                                let j = if k < i { k } else { k + 1 };
                                assert(owned@[k] == before[j]);
                                let c = choose|c: int| 0 <= c < before.len() && before[c].0.0 == w;
                                assert(c == j);
                            }
                            if exists|k: int| 0 <= k < before.len() && before[k].0.0 == w {
                                let c = choose|c: int| 0 <= c < before.len() && before[c].0.0 == w;
                                assert(c != i);
                                let k = if c < i { c } else { c - 1 };
                                assert(owned@[k] == before[c]);
                            }
                        }
                    }
                    frames.dealloc(f);
                }
            },
            MapTarget::Remote { remote } => {
                let mut i: usize = 0;
                while i < remote.len()
                    invariant
                        i <= remote@.len(),
                        forall|k: int| 0 <= k < i ==> remote@[k].0 != vpn,
                    ensures
                        i <= remote@.len(),
                        forall|k: int| 0 <= k < i ==> remote@[k].0 != vpn,
                        i < remote@.len() ==> remote@[i as int].0 == vpn,
                    decreases remote@.len() - i,
                {
                    if remote[i].0.0 == vpn.0 {
                        break;
                    }
                    i = i + 1;
                }
                if i < remote.len() {
                    let ghost before = remote@;
                    proof {
                        if let MapTarget::Remote { remote: ro } = s0.target {
                            assert(ro@ == before);
                        }
                    }
                    remote.remove(i);
                    proof {
                        assert forall|k: int| 0 <= k < remote@.len() implies (#[trigger] remote@[k]).0 != vpn by {
                            if k >= i {
                                assert(remote@[k] == before[k + 1]);
                                if let MapTarget::Remote { remote: ro } = s0.target {
                                    assert(ro[k + 1].0 != ro[i as int].0);
                                }
                            }
                        }
                        assert forall|w: int| w != v implies #[trigger] MapArea::remote_lookup(remote@, w) == MapArea::remote_lookup(before, w) by {
                            if exists|k: int| 0 <= k < remote@.len() && remote@[k].0.0 == w {
                                let k = choose|k: int| 0 <= k < remote@.len() && remote@[k].0.0 == w;
                                let j = if k < i { k } else { k + 1 };
                                assert(remote@[k] == before[j]);
                                let c = choose|c: int| 0 <= c < before.len() && before[c].0.0 == w;
                                assert(c == j);
                            }
                            if exists|k: int| 0 <= k < before.len() && before[k].0.0 == w {
                                let c = choose|c: int| 0 <= c < before.len() && before[c].0.0 == w;
                                assert(c != i);
                                let k = if c < i { c } else { c - 1 };
                                assert(remote@[k] == before[c]);
                            }
                        }
                    }
                }
            },
        }
        let _ = table.unmap(vpn);
        Ok(())
    }

    /// Unmaps every page of the area, each of which must be mapped.
    pub fn unmap(&mut self, table: &mut PageTable, frames: &mut FrameAllocator)
        requires
            old(self).wf(),
            old(table).wf(),
            old(frames)@.wf(),
            old(table).lent_from(old(frames)@),
            old(self).lent_from(old(frames)@),
            old(self).frames_outside(&*old(table)),
            forall|v: int| #[trigger] old(self).in_range(v) ==> old(table).mapping().contains_key(v),
        ensures
            final(self).wf(),
            final(table).wf(),
            final(frames)@.wf(),
            final(table).lent_from(final(frames)@),
            final(self).lent_from(final(frames)@),
            final(self).frames_outside(&*final(table)),
            final(table).root() == old(table).root(),
            final(self).same_shape(old(self)),
            forall|v: int| #[trigger] final(table).mapping().contains_key(v) <==> old(table).mapping().contains_key(v)
                && !old(self).in_range(v),
            forall|v: int| #[trigger] final(table).mapping().contains_key(v) ==> final(table).mapping()[v] == old(table).mapping()[v],
    {
        let ghost m0 = table.mapping();
        let ghost s0 = *self;
        let mut v = self.vpn_start.0;
        let end = self.vpn_end.0;
        while v < end
            invariant
                self.wf(),
                table.wf(),
                frames@.wf(),
                table.lent_from(frames@),
                self.lent_from(frames@),
                self.frames_outside(&*table),
                table.root() == old(table).root(),
                self.same_shape(&s0),
                s0 == *old(self),
                m0 == old(table).mapping(),
                end == s0.vpn_end.0,
                s0.vpn_start.0 <= v <= end,
                forall|u: int| #[trigger] s0.in_range(u) ==> m0.contains_key(u),
                forall|u: int| #[trigger] table.mapping().contains_key(u) <==> m0.contains_key(u)
                    && !(s0.vpn_start.0 <= u < v),
                forall|u: int| #[trigger] table.mapping().contains_key(u) ==> table.mapping()[u] == m0[u],
            decreases end - v,
        {
            assert(s0.in_range(v as int));
            assert(table.mapping().contains_key(v as int));
            let _ = self.unmap_one(table, frames, VirtPageNum(v));
            v = v + 1;
        }
    }

    /// Copies `data` into the area's pages, page by page from its first:
    /// `min(data.len(), pages * 4096)` bytes; the rest of the pages keep
    /// what they held.
    pub fn copy_data(&self, table: &PageTable, mem: &mut PhysMem, data: &[u8])
        requires
            self.wf(),
            table.wf(),
            old(mem).wf(),
            forall|v: int| #[trigger] self.in_range(v) ==> self.target_of(v) is Some
                && table.mapping().contains_key(v) && table.mapping()[v] == self.leaf(v),
        ensures
            final(mem).wf(),
            forall|i: int, off: int|
                0 <= i < self.vpn_end.0 - self.vpn_start.0 && 0 <= off < 4096 ==> #[trigger] final(mem).byte(
                    self.target_of(self.vpn_start.0 + i).unwrap() * 4096 + off,
                ) == if i * 4096 + off < data.len() {
                    data@[i * 4096 + off]
                } else {
                    old(mem).byte(self.target_of(self.vpn_start.0 + i).unwrap() * 4096 + off)
                },
            forall|q: int|
                (forall|i: int| 0 <= i < self.vpn_end.0 - self.vpn_start.0 ==> !(self.target_of(self.vpn_start.0 + i).unwrap() * 4096 <= q
                    < #[trigger] self.target_of(self.vpn_start.0 + i).unwrap() * 4096 + 4096))
                    ==> #[trigger] final(mem).byte(q) == old(mem).byte(q),
    {
        let ghost m0 = *mem;
        let start = self.vpn_start.0;
        let pages = self.vpn_end.0 - self.vpn_start.0;
        let len = data.len() as u64;
        let mut i: u64 = 0;
        while i < pages
            invariant
                self.wf(),
                table.wf(),
                mem.wf(),
                start == self.vpn_start.0,
                pages == self.vpn_end.0 - self.vpn_start.0,
                len == data.len(),
                i <= pages,
                forall|v: int| #[trigger] self.in_range(v) ==> self.target_of(v) is Some
                    && table.mapping().contains_key(v) && table.mapping()[v] == self.leaf(v),
                forall|j: int, off: int|
                    0 <= j < i && 0 <= off < 4096 ==> #[trigger] mem.byte(
                        self.target_of(start + j).unwrap() * 4096 + off,
                    ) == if j * 4096 + off < data.len() {
                        data@[j * 4096 + off]
                    } else {
                        m0.byte(self.target_of(start + j).unwrap() * 4096 + off)
                    },
                forall|q: int|
                    (forall|j: int| 0 <= j < i ==> !(self.target_of(start + j).unwrap() * 4096 <= q
                        < #[trigger] self.target_of(start + j).unwrap() * 4096 + 4096))
                        ==> #[trigger] mem.byte(q) == m0.byte(q),
            decreases pages - i,
        {
            let vpn = VirtPageNum(start + i);
            assert(self.in_range(start + i));
            let pte = match table.translate(vpn) {
                Some(pte) => pte,
                None => {
                    return;
                },
            };
            let ghost t = self.target_of(start + i).unwrap();
            proof {
                self.lemma_target_bound(start + i);
                crate::paging::lemma_pte_fields(t, (self.perm.bits | PTE_V) as u8);
            }
            let ppn = pte.ppn().0;
            assert(ppn == t);
            let pos = i * 4096;
            let n: u64 = if pos >= len {
                0
            } else if len - pos >= 4096 {
                4096
            } else {
                len - pos
            };
            let ghost mb = *mem;
            if n > 0 {
                mem.copy_to_page(ppn, data, pos as usize, n as usize);
            }
            proof {
                assert forall|j: int, off: int|
                    0 <= j < i + 1 && 0 <= off < 4096 implies #[trigger] mem.byte(
                        self.target_of(start + j).unwrap() * 4096 + off,
                    ) == if j * 4096 + off < data.len() {
                        data@[j * 4096 + off]
                    } else {
                        m0.byte(self.target_of(start + j).unwrap() * 4096 + off)
                    } by {
                    let q = self.target_of(start + j).unwrap() * 4096 + off;
                    if j < i {
                        assert(self.in_range(start + j));
                        self.lemma_targets_distinct(start + j, start + i);
                        let tj = self.target_of(start + j).unwrap() as int;
                        assert(tj != t);
                        assert(!(t * 4096 <= q < t * 4096 + n)) by (nonlinear_arith)
                            requires
                                tj != t,
                                q == tj * 4096 + off,
                                0 <= off < 4096,
                                n <= 4096,
                        ;
                    } else {
                        assert(j == i);
                        assert(forall|jj: int| 0 <= jj < i ==> !(self.target_of(start + jj).unwrap() * 4096 <= q
                            < #[trigger] self.target_of(start + jj).unwrap() * 4096 + 4096)) by {
                            assert forall|jj: int| 0 <= jj < i implies !(self.target_of(start + jj).unwrap() * 4096 <= q
                                < #[trigger] self.target_of(start + jj).unwrap() * 4096 + 4096) by {
                                assert(self.in_range(start + jj));
                                self.lemma_targets_distinct(start + jj, start + i);
                                let tj = self.target_of(start + jj).unwrap() as int;
                                assert(!(tj * 4096 <= q < tj * 4096 + 4096)) by (nonlinear_arith)
                                    requires
                                        tj != t,
                                        q == t * 4096 + off,
                                        0 <= off < 4096,
                                ;
                            }
                        }
                        assert(mb.byte(q) == m0.byte(q));
                    }
                }
                assert forall|q: int|
                    (forall|j: int| 0 <= j < i + 1 ==> !(self.target_of(start + j).unwrap() * 4096 <= q
                        < #[trigger] self.target_of(start + j).unwrap() * 4096 + 4096))
                        implies #[trigger] mem.byte(q) == m0.byte(q) by {
                    assert(!(self.target_of(start + i).unwrap() * 4096 <= q
                        < self.target_of(start + i).unwrap() * 4096 + 4096));
                    assert(forall|j: int| 0 <= j < i ==> !(self.target_of(start + j).unwrap() * 4096 <= q
                        < #[trigger] self.target_of(start + j).unwrap() * 4096 + 4096));
                }
            }
            i = i + 1;
        }
    }
}

/// A page table and the areas whose mappings it holds, in the order they
/// were pushed.
pub struct MemorySet {
    pub table: PageTable,
    pub areas: Vec<MapArea>,
}

impl MemorySet {
    pub open spec fn areas(&self) -> Seq<MapArea> {
        self.areas@
    }

    /// The table holds exactly the leaves of the areas, and no page lies in
    /// two areas.
    pub open spec fn wf(&self) -> bool {
        &&& self.table.wf()
        &&& forall|i: int| 0 <= i < self.areas().len() ==> (#[trigger] self.areas()[i]).wf()
        &&& forall|i: int, v: int|
            0 <= i < self.areas().len() && #[trigger] self.areas()[i].in_range(v) ==> {
                &&& self.areas()[i].target_of(v) is Some
                &&& self.table.mapping().contains_key(v)
                &&& self.table.mapping()[v] == self.areas()[i].leaf(v)
            }
        &&& forall|v: int| #[trigger] self.table.mapping().contains_key(v) ==> exists|i: int|
            0 <= i < self.areas().len() && #[trigger] self.areas()[i].in_range(v)
        &&& forall|i: int, j: int, v: int|
            0 <= i < self.areas().len() && 0 <= j < self.areas().len() && i != j
                && #[trigger] self.areas()[i].in_range(v) ==> !#[trigger] self.areas()[j].in_range(v)
    }

    pub open spec fn lent_from(&self, a: AllocState) -> bool {
        &&& self.table.lent_from(a)
        &&& forall|i: int| 0 <= i < self.areas().len() ==> (#[trigger] self.areas()[i]).lent_from(a)
    }

    /// An address space with an empty table; `None` when no frame is left.
    pub fn new_bare(frames: &mut FrameAllocator) -> (r: Option<MemorySet>)
        requires
            old(frames)@.wf(),
        ensures
            final(frames)@ == old(frames)@.after_alloc(),
            (r is None <==> old(frames)@.next_frame() is None),
            (r matches Some(m) ==> {
                &&& m.wf()
                &&& m.lent_from(final(frames)@)
                &&& m.areas().len() == 0
                &&& m.table.mapping() == Map::<int, PTE>::empty()
            }),
    {
        match PageTable::new(frames) {
            None => None,
            Some(table) => Some(MemorySet { table, areas: Vec::new() }),
        }
    }

    /// Whether no page of `[start, end)` has a valid leaf.
    fn range_free(&self, start: VirtPageNum, end: VirtPageNum) -> (r: bool)
        requires
            self.table.wf(),
            start.0 <= end.0 <= 0x800_0000,
        ensures
            r == forall|v: int| start.0 <= v < end.0 ==> !#[trigger] self.table.mapping().contains_key(v),
    {
        let mut v = start.0;
        while v < end.0
            invariant
                self.table.wf(),
                start.0 <= v <= end.0 <= 0x800_0000,
                forall|u: int| start.0 <= u < v ==> !#[trigger] self.table.mapping().contains_key(u),
            decreases end.0 - v,
        {
            if self.table.translate(VirtPageNum(v)).is_some() {
                return false;
            }
            v = v + 1;
        }
        true
    }

    /// Maps every page of `area` and keeps the area; with `data`, copies it
    /// to the area's pages from the first on. Refused before any change when
    /// a page of the area is mapped already (`AlreadyMapped`). When frames
    /// run out (`OutOfFrames`) the mapping, the areas and memory are as
    /// before; tables allocated on the way stay with the table. Three free
    /// frames per page always suffice.
    pub fn push(&mut self, frames: &mut FrameAllocator, mem: &mut PhysMem, area: MapArea, data: Option<&[u8]>) -> (r: Result<(), PagingError>)
        requires
            old(self).wf(),
            old(frames)@.wf(),
            old(mem).wf(),
            old(self).lent_from(old(frames)@),
            area.wf(),
            area.lent_from(old(frames)@),
            forall|v: int| #[trigger] area.in_range(v) ==> area.ready_for(v),
        ensures
            final(self).wf(),
            final(frames)@.wf(),
            final(mem).wf(),
            final(self).lent_from(final(frames)@),
            final(self).table.root() == old(self).table.root(),
            forall|p: int| #[trigger] final(frames)@.holds(p) ==> old(frames)@.holds(p),
            forall|p: u64| #[trigger] old(frames)@.lent(p) ==> final(frames)@.lent(p),
            ((forall|v: int| #[trigger] area.in_range(v) ==> !old(self).table.mapping().contains_key(v))
                && old(frames)@.available() >= 3 * (area.vpn_end.0 - area.vpn_start.0)) ==> r is Ok,
            (r == Err::<(), PagingError>(PagingError::AlreadyMapped)) <==> exists|v: int| #[trigger] area.in_range(v)
                && old(self).table.mapping().contains_key(v),
            (r == Err::<(), PagingError>(PagingError::AlreadyMapped) ==> *final(self) == *old(self) && *final(frames)
                == *old(frames)),
            (r is Err ==> r == Err::<(), PagingError>(PagingError::AlreadyMapped) || r == Err::<(), PagingError>(
                PagingError::OutOfFrames,
            )),
            (r is Err ==> final(self).areas() == old(self).areas() && final(self).table.mapping() == old(self).table.mapping()
                && *final(mem) == *old(mem)),
            (r is Ok ==> {
                let added = final(self).areas().last();
                &&& final(self).areas().len() == old(self).areas().len() + 1
                &&& final(self).areas().drop_last() == old(self).areas()
                &&& added.same_shape(&area)
                &&& forall|v: int| !area.in_range(v) ==> #[trigger] added.target_of(v) == area.target_of(v)
                &&& (!(area.target is Framed) ==> added == area)
                &&& (area.target is Framed ==> forall|v: int| #[trigger] area.in_range(v) ==> old(frames)@.holds(
                    added.target_of(v).unwrap() as int,
                ) && final(frames)@.lent(added.target_of(v).unwrap()))
                &&& final(self).table.mapping() == old(self).table.mapping().union_prefer_right(added.area_mapping())
            }),
            (r is Ok && data is None ==> *final(mem) == *old(mem)),
            (r is Ok ==> forall|v: int| #[trigger] old(self).table.mapping().contains_key(v) ==> final(self).table.mapping().contains_key(v)
                && final(self).table.mapping()[v] == old(self).table.mapping()[v]),
            (r is Ok ==> final(frames)@.available() >= old(frames)@.available() - 3 * (area.vpn_end.0 - area.vpn_start.0)),
            (r is Ok && data is Some ==> {
                let added = final(self).areas().last();
                let d = data.unwrap()@;
                &&& forall|i: int, off: int|
                    0 <= i < area.vpn_end.0 - area.vpn_start.0 && 0 <= off < 4096 ==> #[trigger] final(mem).byte(
                        added.target_of(area.vpn_start.0 + i).unwrap() * 4096 + off,
                    ) == if i * 4096 + off < d.len() {
                        d[i * 4096 + off]
                    } else {
                        old(mem).byte(added.target_of(area.vpn_start.0 + i).unwrap() * 4096 + off)
                    }
                &&& forall|q: int|
                    (forall|i: int| 0 <= i < area.vpn_end.0 - area.vpn_start.0 ==> !(added.target_of(area.vpn_start.0 + i).unwrap() * 4096 <= q
                        < #[trigger] added.target_of(area.vpn_start.0 + i).unwrap() * 4096 + 4096))
                        ==> #[trigger] final(mem).byte(q) == old(mem).byte(q)
            }),
    {
        let ghost m0 = self.table.mapping();
        let ghost s0 = *self;
        let mut area = area;
        let ghost ar0 = area;
        if !self.range_free(area.vpn_start, area.vpn_end) {
            proof {
                let v = choose|v: int| area.vpn_start.0 <= v < area.vpn_end.0 && m0.contains_key(v);
                assert(area.in_range(v));
            }
            return Err(PagingError::AlreadyMapped);
        }
        let ghost a0 = frames@;
        if area.map(&mut self.table, frames).is_err() {
            proof {
                assert(!(exists|v: int| #[trigger] area.in_range(v) && m0.contains_key(v)));
                assert forall|i: int| 0 <= i < self.areas().len() implies (#[trigger] self.areas()[i]).lent_from(frames@) by {
                    let ai = self.areas()[i];
                    assert(ai.lent_from(a0));
                    if let MapTarget::Framed { frames: fl } = ai.target {
                        assert forall|k: int| 0 <= k < fl.len() implies frames@.lent(#[trigger] fl[k].1.number()) by {
                            assert(a0.lent(fl[k].1.number()));
                        }
                    }
                }
            }
            return Err(PagingError::OutOfFrames);
        }
        match data {
            Some(d) => {
                area.copy_data(&self.table, mem, d);
            },
            None => {},
        }
        let ghost added = area;
        proof {
            if ar0.target is Framed {
                assert forall|v: int| #[trigger] ar0.in_range(v) implies a0.holds(added.target_of(v).unwrap() as int)
                    && frames@.lent(added.target_of(v).unwrap()) by {
                    assert(added.in_range(v));
                }
            }
        }
        self.areas.push(area);
        proof {
            let t = *self;
            assert(t.areas().drop_last() =~= s0.areas());
            assert(t.areas().last() == added);
            let n = s0.areas().len();
            assert forall|i: int| 0 <= i < t.areas().len() implies (#[trigger] t.areas()[i]).wf() by {
                if i < n {
                    assert(t.areas()[i] == s0.areas()[i]);
                }
            }
            assert forall|i: int| 0 <= i < t.areas().len() implies (#[trigger] t.areas()[i]).lent_from(frames@) by {
                if i < n {
                    assert(t.areas()[i] == s0.areas()[i]);
                    let ai = s0.areas()[i];
                    assert(ai.lent_from(a0));
                    if let MapTarget::Framed { frames: fl } = ai.target {
                        assert forall|k: int| 0 <= k < fl.len() implies frames@.lent(#[trigger] fl[k].1.number()) by {
                            assert(a0.lent(fl[k].1.number()));
                        }
                    }
                }
            }
            assert forall|i: int, j: int, v: int|
                0 <= i < t.areas().len() && 0 <= j < t.areas().len() && i != j
                    && #[trigger] t.areas()[i].in_range(v) implies !#[trigger] t.areas()[j].in_range(v) by {
                if i < n && j < n {
                    assert(t.areas()[i] == s0.areas()[i]);
                    assert(t.areas()[j] == s0.areas()[j]);
                } else if i == n {
                    assert(t.areas()[j] == s0.areas()[j]);
                    assert(ar0.in_range(v));
                    if s0.areas()[j].in_range(v) {
                        assert(m0.contains_key(v));
                    }
                } else {
                    assert(t.areas()[i] == s0.areas()[i]);
                    if ar0.in_range(v) {
                        assert(m0.contains_key(v));
                    }
                }
            }
            assert forall|i: int, v: int|
                0 <= i < t.areas().len() && #[trigger] t.areas()[i].in_range(v) implies {
                    &&& t.areas()[i].target_of(v) is Some
                    &&& t.table.mapping().contains_key(v)
                    &&& t.table.mapping()[v] == t.areas()[i].leaf(v)
                } by {
                if i < n {
                    assert(t.areas()[i] == s0.areas()[i]);
                    assert(m0.contains_key(v));
                    assert(!ar0.in_range(v));
                } else {
                    assert(added.in_range(v));
                }
            }
            assert forall|v: int| #[trigger] t.table.mapping().contains_key(v) implies exists|i: int|
                0 <= i < t.areas().len() && #[trigger] t.areas()[i].in_range(v) by {
                if m0.contains_key(v) {
                    let i = choose|i: int| 0 <= i < s0.areas().len() && #[trigger] s0.areas()[i].in_range(v);
                    assert(t.areas()[i] == s0.areas()[i]);
                } else {
                    assert(added.in_range(v));
                    assert(t.areas()[n as int].in_range(v));
                }
            }
            assert(t.wf());
            assert forall|v: int| #[trigger] m0.contains_key(v) implies t.table.mapping().contains_key(v)
                && t.table.mapping()[v] == m0[v] by {
                assert(!ar0.in_range(v));
                assert(!added.area_mapping().contains_key(v));
            }
        }
        Ok(())
    }

    /// Adds a framed area over the pages that cover `[start_va, end_va)`.
    pub fn insert_framed_area(&mut self, frames: &mut FrameAllocator, mem: &mut PhysMem, start_va: VirtAddr, end_va: VirtAddr, permission: MapPermission) -> (r: Result<(), PagingError>)
        requires
            old(self).wf(),
            old(frames)@.wf(),
            old(mem).wf(),
            old(self).lent_from(old(frames)@),
            start_va.0 <= end_va.0 <= 0x80_0000_0000,
            permission.bits & 0xe1 == 0,
        ensures
            final(self).wf(),
            final(frames)@.wf(),
            *final(mem) == *old(mem),
            final(self).lent_from(final(frames)@),
            final(self).table.root() == old(self).table.root(),
            forall|p: int| #[trigger] final(frames)@.holds(p) ==> old(frames)@.holds(p),
            forall|p: u64| #[trigger] old(frames)@.lent(p) ==> final(frames)@.lent(p),
            ((forall|v: int| page_floor(start_va.0 as int) <= v < page_ceil(end_va.0 as int)
                ==> !#[trigger] old(self).table.mapping().contains_key(v))
                && old(frames)@.available() >= 3 * (page_ceil(end_va.0 as int) - page_floor(start_va.0 as int))) ==> r is Ok,
            (r == Err::<(), PagingError>(PagingError::AlreadyMapped)) <==> exists|v: int|
                page_floor(start_va.0 as int) <= v < page_ceil(end_va.0 as int) && #[trigger] old(self).table.mapping().contains_key(v),
            (r is Err ==> final(self).areas() == old(self).areas() && final(self).table.mapping() == old(self).table.mapping()),
            (r is Ok ==> {
                let added = final(self).areas().last();
                &&& final(self).areas().drop_last() == old(self).areas()
                &&& added.vpn_start.0 == page_floor(start_va.0 as int)
                &&& added.vpn_end.0 == page_ceil(end_va.0 as int)
                &&& added.perm == permission
                &&& added.target is Framed
                &&& final(self).table.mapping() == old(self).table.mapping().union_prefer_right(added.area_mapping())
                &&& forall|v: int| #[trigger] added.in_range(v) ==> old(frames)@.holds(added.target_of(v).unwrap() as int)
                    && final(frames)@.lent(added.target_of(v).unwrap())
                &&& forall|u: int, w: int| #[trigger] added.in_range(u) && #[trigger] added.in_range(w) && u != w
                    ==> added.target_of(u) != added.target_of(w)
            }),
    {
        let area = MapArea::new(start_va, end_va, MapTarget::Framed { frames: Vec::new() }, permission);
        let ghost ar = area;
        proof {
            assert forall|v: int| #[trigger] ar.in_range(v) implies ar.ready_for(v) by {
                if let MapTarget::Framed { frames: fl } = ar.target {
                    assert(fl.len() == 0);
                }
            }
            assert forall|v: int| page_floor(start_va.0 as int) <= v < page_ceil(end_va.0 as int)
                implies #[trigger] ar.in_range(v) by {}
        }
        let r = self.push(frames, mem, area, None);
        proof {
            if r is Ok {
                let added = self.areas().last();
                assert(self.areas()[self.areas().len() - 1] == added);
                assert forall|v: int| #[trigger] added.in_range(v) implies old(frames)@.holds(added.target_of(v).unwrap() as int)
                    && frames@.lent(added.target_of(v).unwrap()) by {
                    assert(ar.in_range(v));
                }
                assert forall|u: int, w: int| #[trigger] added.in_range(u) && #[trigger] added.in_range(w) && u != w
                    implies added.target_of(u) != added.target_of(w) by {
                    added.lemma_targets_distinct(u, w);
                }
            }
            if r == Err::<(), PagingError>(PagingError::AlreadyMapped) {
                let v = choose|v: int| #[trigger] ar.in_range(v) && old(self).table.mapping().contains_key(v);
                assert(page_floor(start_va.0 as int) <= v < page_ceil(end_va.0 as int));
            }
            if exists|v: int|
                page_floor(start_va.0 as int) <= v < page_ceil(end_va.0 as int) && #[trigger] old(self).table.mapping().contains_key(v) {
                let v = choose|v: int|
                    page_floor(start_va.0 as int) <= v < page_ceil(end_va.0 as int) && #[trigger] old(self).table.mapping().contains_key(v);
                assert(ar.in_range(v));
            }
        }
        r
    }
}

/// Where the linker put the kernel's sections: page-aligned, in this order,
/// above the serial port's page and below the end of physical memory.
#[derive(Clone, Copy, PartialEq, Eq, Structural, Debug)]
pub struct KernelLayout {
    pub text_start: u64,
    pub text_end: u64,
    pub ro_start: u64,
    pub ro_end: u64,
    pub rw_start: u64,
    pub rw_end: u64,
    pub kernel_end: u64,
    /// The vDSO code, inside `.text`.
    pub text_vdso_start: u64,
    pub text_vdso_end: u64,
}

/// Which devices a user process may reach directly.
#[derive(Clone, Copy, PartialEq, Eq, Structural, Debug, Default)]
pub struct UserCaps {
    pub serial: bool,
}

pub open spec fn page_aligned(a: u64) -> bool {
    a % 4096 == 0
}

impl KernelLayout {
    pub open spec fn wf(&self) -> bool {
        &&& page_aligned(self.text_start) && page_aligned(self.text_end)
        &&& page_aligned(self.ro_start) && page_aligned(self.ro_end)
        &&& page_aligned(self.rw_start) && page_aligned(self.rw_end)
        &&& page_aligned(self.kernel_end)
        &&& SERIAL_BASE + 4096 <= self.text_start <= self.text_end <= self.ro_start <= self.ro_end
        &&& PROCESS_STACK_TOP <= self.text_start
        &&& self.ro_end <= self.rw_start <= self.rw_end <= self.kernel_end <= PHYS_MEMORY_END
        &&& self.text_start <= self.text_vdso_start <= self.text_vdso_end <= self.text_end
    }

    /// Pages that the kernel template maps.
    pub open spec fn pages(&self) -> int {
        (self.text_end / 4096 - self.text_start / 4096) + (self.ro_end / 4096 - self.ro_start / 4096)
            + (self.rw_end / 4096 - self.rw_start / 4096) + (PHYS_MEMORY_END / 4096 - self.kernel_end / 4096) + 1
    }
}

/// Pages `[lo, hi)` mapped to themselves with `perm | V`.
pub open spec fn identity_leaves(lo: u64, hi: u64, perm: u8) -> Map<int, PTE> {
    Map::new(|v: int| lo <= v < hi, |v: int| PTE { bits: pte_bits(v as u64, perm | PTE_V) })
}

pub open spec fn serial_perm(caps: UserCaps) -> u8 {
    if caps.serial {
        MAP_R | MAP_W | MAP_U
    } else {
        MAP_R | MAP_W
    }
}

/// The leaves of the kernel template: `.text` RX, `.rodata` R, `.data` and
/// `.bss` RW, the rest of physical memory RW, and the serial page RW (and U
/// when the process may use the serial port).
pub open spec fn kernel_mapping(l: KernelLayout, caps: UserCaps) -> Map<int, PTE> {
    identity_leaves(l.text_start / 4096, l.text_end / 4096, MAP_R | MAP_X)
        .union_prefer_right(identity_leaves(l.ro_start / 4096, l.ro_end / 4096, MAP_R))
        .union_prefer_right(identity_leaves(l.rw_start / 4096, l.rw_end / 4096, MAP_R | MAP_W))
        .union_prefer_right(identity_leaves(l.kernel_end / 4096, PHYS_MEMORY_END / 4096, MAP_R | MAP_W))
        .union_prefer_right(identity_leaves(SERIAL_BASE / 4096, ((SERIAL_BASE + 4096) / 4096) as u64, serial_perm(caps)))
}

impl MemorySet {
    /// Pushes one identity area over `[start, end)` onto a set that holds
    /// only pages below `start` and no page that the new area covers.
    fn push_identity(&mut self, frames: &mut FrameAllocator, mem: &mut PhysMem, start: u64, end: u64, perm: MapPermission) -> (r: Result<(), PagingError>)
        requires
            old(self).wf(),
            old(frames)@.wf(),
            old(mem).wf(),
            old(self).lent_from(old(frames)@),
            start <= end <= 0x80_0000_0000,
            page_aligned(start),
            page_aligned(end),
            perm.bits & 0xe1 == 0,
            forall|v: int| start / 4096 <= v < end / 4096 ==> !#[trigger] old(self).table.mapping().contains_key(v),
        ensures
            final(self).wf(),
            final(frames)@.wf(),
            final(mem).wf(),
            final(self).lent_from(final(frames)@),
            final(self).areas().len() == old(self).areas().len() + 1 || r is Err,
            forall|p: u64| #[trigger] old(frames)@.lent(p) ==> final(frames)@.lent(p),
            old(frames)@.available() >= 3 * (end / 4096 - start / 4096) ==> r is Ok,
            (r is Err ==> r == Err::<(), PagingError>(PagingError::OutOfFrames)),
            (r is Ok ==> final(self).table.mapping() == old(self).table.mapping().union_prefer_right(
                identity_leaves(start / 4096, end / 4096, perm.bits),
            )),
            (r is Ok ==> old(frames)@.available() - 3 * (end / 4096 - start / 4096) <= final(frames)@.available()),
            (r is Ok ==> final(self).areas().drop_last() == old(self).areas() && final(self).areas().last().target is Identical),
    {
        let area = MapArea::new(VirtAddr(start), VirtAddr(end), MapTarget::Identical, perm);
        let ghost ar = area;
        let ghost a0 = frames@;
        assert(ar.vpn_start.0 == start / 4096 && ar.vpn_end.0 == end / 4096);
        let r = self.push(frames, mem, area, None);
        proof {
            assert(!(exists|v: int| #[trigger] ar.in_range(v) && old(self).table.mapping().contains_key(v))) by {
                if exists|v: int| #[trigger] ar.in_range(v) && old(self).table.mapping().contains_key(v) {
                    let v = choose|v: int| #[trigger] ar.in_range(v) && old(self).table.mapping().contains_key(v);
                    assert(start / 4096 <= v < end / 4096);
                }
            }
            if r is Ok {
                let added = self.areas().last();
                assert(added.area_mapping() =~= identity_leaves(start / 4096, end / 4096, perm.bits));
            }
        }
        r
    }

    /// The kernel template: `.text` RX, `.rodata` R, `.data` and `.bss` RW,
    /// physical memory past the kernel RW, and the serial page.
    pub fn new_kernel(frames: &mut FrameAllocator, mem: &mut PhysMem, layout: &KernelLayout, caps: UserCaps) -> (r: Result<MemorySet, PagingError>)
        requires
            old(frames)@.wf(),
            old(mem).wf(),
            layout.wf(),
        ensures
            final(frames)@.wf(),
            final(mem).wf(),
            forall|p: u64| #[trigger] old(frames)@.lent(p) ==> final(frames)@.lent(p),
            (r is Err ==> r == Err::<MemorySet, PagingError>(PagingError::OutOfFrames)),
            (old(frames)@.available() >= 1 + 3 * layout.pages() ==> r is Ok),
            (r matches Ok(m) ==> {
                &&& m.wf()
                &&& m.lent_from(final(frames)@)
                &&& m.areas().len() == 5
                &&& forall|i: int| 0 <= i < 5 ==> (#[trigger] m.areas()[i]).target is Identical
                &&& m.table.mapping() == kernel_mapping(*layout, caps)
                &&& final(frames)@.available() >= old(frames)@.available() - (1 + 3 * layout.pages())
            }),
    {
        let ghost l = *layout;
        let ghost a0 = frames@;
        proof {
            lemma_after_alloc(a0);
        }
        let mut m = match MemorySet::new_bare(frames) {
            None => {
                return Err(PagingError::OutOfFrames);
            },
            Some(m) => m,
        };
        let ghost t_lo = l.text_start / 4096;
        let ghost t_hi = l.text_end / 4096;
        let ghost r_lo = l.ro_start / 4096;
        let ghost r_hi = l.ro_end / 4096;
        let ghost w_lo = l.rw_start / 4096;
        let ghost w_hi = l.rw_end / 4096;
        let ghost k_lo = l.kernel_end / 4096;
        let ghost k_hi = PHYS_MEMORY_END / 4096;
        let ghost s_lo = SERIAL_BASE / 4096;
        let ghost m1 = identity_leaves(t_lo, t_hi, MAP_R | MAP_X);
        let ghost m2 = m1.union_prefer_right(identity_leaves(r_lo, r_hi, MAP_R));
        let ghost m3 = m2.union_prefer_right(identity_leaves(w_lo, w_hi, MAP_R | MAP_W));
        let ghost m4 = m3.union_prefer_right(identity_leaves(k_lo, k_hi, MAP_R | MAP_W));
        let rx = MapPermission { bits: MAP_R | MAP_X };
        let ro = MapPermission { bits: MAP_R };
        let rw = MapPermission { bits: MAP_R | MAP_W };
        let serial = if caps.serial {
            MapPermission { bits: MAP_R | MAP_W | MAP_U }
        } else {
            MapPermission { bits: MAP_R | MAP_W }
        };
        assert(2u8 | 8u8 == 10u8 && 2u8 | 4u8 == 6u8 && 2u8 | 4u8 | 16u8 == 22u8) by (bit_vector);
        assert(10u8 & 0xe1u8 == 0u8 && 2u8 & 0xe1u8 == 0u8 && 6u8 & 0xe1u8 == 0u8 && 22u8 & 0xe1u8 == 0u8) by (bit_vector);
        if m.push_identity(frames, mem, layout.text_start, layout.text_end, rx).is_err() {
            return Err(PagingError::OutOfFrames);
        }
        assert(m.table.mapping() =~= m1);
        if m.push_identity(frames, mem, layout.ro_start, layout.ro_end, ro).is_err() {
            return Err(PagingError::OutOfFrames);
        }
        if m.push_identity(frames, mem, layout.rw_start, layout.rw_end, rw).is_err() {
            return Err(PagingError::OutOfFrames);
        }
        if m.push_identity(frames, mem, layout.kernel_end, PHYS_MEMORY_END, rw).is_err() {
            return Err(PagingError::OutOfFrames);
        }
        if m.push_identity(frames, mem, SERIAL_BASE, SERIAL_BASE + 4096, serial).is_err() {
            return Err(PagingError::OutOfFrames);
        }
        proof {
            let a = m.areas();
            assert(a.drop_last().drop_last().drop_last().drop_last().drop_last() =~= Seq::<MapArea>::empty());
            assert forall|i: int| 0 <= i < 5 implies (#[trigger] a[i]).target is Identical by {
                if i == 4 {
                } else if i == 3 {
                    assert(a[i] == a.drop_last()[i]);
                } else if i == 2 {
                    assert(a[i] == a.drop_last().drop_last()[i]);
                } else if i == 1 {
                    assert(a[i] == a.drop_last().drop_last().drop_last()[i]);
                } else {
                    assert(a[i] == a.drop_last().drop_last().drop_last().drop_last()[i]);
                }
            }
        }
        Ok(m)
    }

    /// An allocator that still counts every frame as handed out still lends
    /// the address space its frames.
    pub proof fn lemma_lent_mono(&self, a: AllocState, b: AllocState)
        requires
            self.lent_from(a),
            forall|p: u64| #[trigger] a.lent(p) ==> b.lent(p),
        ensures
            self.lent_from(b),
    {
        self.table.lemma_lent_mono(a, b);
        assert forall|i: int| 0 <= i < self.areas().len() implies (#[trigger] self.areas()[i]).lent_from(b) by {
            let ai = self.areas()[i];
            assert(ai.lent_from(a));
            if let MapTarget::Framed { frames: fl } = ai.target {
                assert forall|k: int| 0 <= k < fl.len() implies b.lent(#[trigger] fl[k].1.number()) by {
                    assert(a.lent(fl[k].1.number()));
                }
            }
        }
    }
}

/// The kernel template maps only the serial page and the pages from
/// `.text` to the end of physical memory.
pub proof fn lemma_kernel_domain(l: KernelLayout, caps: UserCaps, v: int)
    requires
        l.wf(),
        kernel_mapping(l, caps).contains_key(v),
    ensures
        v == SERIAL_BASE / 4096 || l.text_start / 4096 <= v < PHYS_MEMORY_END / 4096,
{
}

} // verus!
