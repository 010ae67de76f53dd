//! Sv39 page-table entries and the three-level page table.
use vstd::prelude::*;
use crate::addr::{
    PhysAddr, PhysPageNum, VirtAddr, VirtPageNum, sv39_indexes, page_floor, page_off,
    lemma_indexes_injective,
};
use crate::frame::{AllocState, Frame, FrameAllocator, lemma_after_alloc};
use crate::physmem::{le_bytes, push_le_u64};

verus! {

pub const PTE_V: u8 = 1;

pub const PTE_R: u8 = 2;

pub const PTE_W: u8 = 4;

pub const PTE_X: u8 = 8;

pub const PTE_U: u8 = 16;

pub const PTE_G: u8 = 32;

pub const PTE_A: u8 = 64;

pub const PTE_D: u8 = 128;

/// The eight flag bits of an entry: `V, R, W, X, U, G, A, D`, low bit first.
#[derive(Clone, Copy, PartialEq, Eq, Structural, Debug)]
pub struct PTEFlags {
    pub bits: u8,
}

impl PTEFlags {
    pub fn empty() -> (r: PTEFlags)
        ensures
            r.bits == 0,
    {
        PTEFlags { bits: 0 }
    }

    /// Every `u8` names a set of the eight flags.
    pub fn from_bits(bits: u8) -> (r: Option<PTEFlags>)
        ensures
            r == Some(PTEFlags { bits }),
    {
        Some(PTEFlags { bits })
    }

    pub fn union(&self, other: PTEFlags) -> (r: PTEFlags)
        ensures
            r.bits == self.bits | other.bits,
    {
        PTEFlags { bits: self.bits | other.bits }
    }

    pub fn intersection(&self, other: PTEFlags) -> (r: PTEFlags)
        ensures
            r.bits == self.bits & other.bits,
    {
        PTEFlags { bits: self.bits & other.bits }
    }

    pub fn contains(&self, other: PTEFlags) -> (r: bool)
        ensures
            r == (self.bits & other.bits == other.bits),
    {
        self.bits & other.bits == other.bits
    }
}

pub open spec fn pte_bits(ppn: u64, flags: u8) -> u64 {
    (ppn << 10) | (flags as u64)
}

pub open spec fn pte_ppn(bits: u64) -> u64 {
    (bits >> 10) & 0xfff_ffff_ffff
}

pub open spec fn pte_flags(bits: u64) -> u8 {
    (bits & 0xff) as u8
}

pub open spec fn pte_valid(bits: u64) -> bool {
    bits & 1 == 1
}

/// An entry built from a page number and flags gives both back.
pub proof fn lemma_pte_fields(ppn: u64, flags: u8)
    requires
        ppn < 0x1000_0000_0000,
    ensures
        pte_ppn(pte_bits(ppn, flags)) == ppn,
        pte_flags(pte_bits(ppn, flags)) == flags,
        pte_valid(pte_bits(ppn, flags)) == (flags & 1 == 1),
{
    let f = flags as u64;
    assert(f < 256);
    assert(((ppn << 10) | f) >> 10 & 0xfff_ffff_ffff == ppn) by (bit_vector)
        requires
            ppn < 0x1000_0000_0000,
            f < 256,
    ;
    assert(((ppn << 10) | f) & 0xff == f) by (bit_vector)
        requires
            f < 256,
    ;
    assert((((ppn << 10) | f) & 1 == 1) == (f & 1 == 1)) by (bit_vector)
        requires
            f < 256,
    ;
    assert((f & 1 == 1) == (flags & 1 == 1)) by (bit_vector)
        requires
            f == flags as u64,
    ;
}

/// Mapping a page and reading it back gives the page number, the `R, W, X, U`
/// flags that were asked for, and `V`; unmapping it again leaves no leaf.
pub proof fn lemma_map_round_trip(m: Map<int, PTE>, vpn: int, ppn: u64, flags: u8)
    requires
        ppn < 0x1000_0000_0000,
    ensures
        ({
            let e = m.insert(vpn, PTE { bits: pte_bits(ppn, flags | PTE_V) })[vpn];
            &&& pte_ppn(e.bits) == ppn
            &&& pte_flags(e.bits) & 0x1e == flags & 0x1e
            &&& pte_valid(e.bits)
        }),
        !m.insert(vpn, PTE { bits: pte_bits(ppn, flags | PTE_V) }).remove(vpn).contains_key(vpn),
{
    let fl = flags | PTE_V;
    lemma_pte_fields(ppn, fl);
    assert(fl & 0x1e == flags & 0x1e && fl & 1 == 1) by (bit_vector)
        requires
            fl == flags | 1u8,
    ;
}

/// The bytes of a table frame holding `es`: each entry as 8 little-endian
/// bytes, in order.
pub open spec fn ptes_image(es: Seq<PTE>) -> Seq<u8>
    decreases es.len(),
{
    if es.len() == 0 {
        Seq::empty()
    } else {
        ptes_image(es.drop_last()).add(le_bytes(es.last().bits as nat, 8))
    }
}

/// A page-table entry: `ppn << 10 | flags`.
#[derive(Clone, Copy, PartialEq, Eq, Structural, Debug)]
pub struct PTE {
    pub bits: u64,
}

impl PTE {
    pub fn new(ppn: PhysPageNum, flags: PTEFlags) -> (r: PTE)
        requires
            ppn.0 < 0x1000_0000_0000,
        ensures
            r.bits == pte_bits(ppn.0, flags.bits),
            pte_ppn(r.bits) == ppn.0,
            pte_flags(r.bits) == flags.bits,
            pte_valid(r.bits) == (flags.bits & 1 == 1),
    {
        proof {
            lemma_pte_fields(ppn.0, flags.bits);
        }
        PTE { bits: (ppn.0 << 10) | (flags.bits as u64) }
    }

    pub fn empty() -> (r: PTE)
        ensures
            r.bits == 0,
            !pte_valid(r.bits),
    {
        assert(!(0u64 & 1 == 1)) by (bit_vector);
        PTE { bits: 0 }
    }

    pub fn ppn(&self) -> (r: PhysPageNum)
        ensures
            r.0 == pte_ppn(self.bits),
            r.0 < 0x1000_0000_0000,
    {
        let b = self.bits;
        assert((b >> 10) & 0xfff_ffff_ffff < 0x1000_0000_0000) by (bit_vector);
        PhysPageNum((self.bits >> 10) & 0xfff_ffff_ffff)
    }

    pub fn flags(&self) -> (r: PTEFlags)
        ensures
            r.bits == pte_flags(self.bits),
    {
        PTEFlags { bits: (self.bits & 0xff) as u8 }
    }

    pub fn is_valid(&self) -> (r: bool)
        ensures
            r == pte_valid(self.bits),
    {
        self.bits & 1 == 1
    }
}

/// Why a page-table update was refused; nothing changed.
#[derive(Clone, Copy, PartialEq, Eq, Structural, Debug)]
pub enum PagingError {
    /// The page already has a valid leaf.
    AlreadyMapped,
    /// The page has no valid leaf.
    NotMapped,
    /// Not enough frames are left for the intermediate tables.
    OutOfFrames,
}

/// The root table, all table frames it owns (root first), and the 512
/// entries of each of them.
pub struct PageTable {
    ppn: PhysPageNum,
    frames: Vec<Frame>,
    nodes: Vec<Vec<PTE>>,
    levels: Ghost<Seq<int>>,
}

impl PageTable {
    /// Index of the owned table frame with page number `p`, or -1.
    closed spec fn node_of(&self, p: u64) -> int {
        if exists|i: int| 0 <= i < self.frames.len() && self.frames[i].number() == p {
            choose|i: int| 0 <= i < self.frames.len() && self.frames[i].number() == p
        } else {
            -1
        }
    }

    pub closed spec fn entry(&self, n: int, j: int) -> PTE {
        self.nodes@[n]@[j]
    }

    closed spec fn child(&self, n: int, j: int) -> int {
        self.node_of(pte_ppn(self.entry(n, j).bits))
    }

    closed spec fn points(&self, n: int, j: int) -> bool {
        0 <= n < self.nodes.len() && 0 <= j < 512 && self.levels@[n] > 0 && pte_valid(
            self.entry(n, j).bits,
        )
    }

    pub closed spec fn wf(&self) -> bool {
        &&& self.frames.len() == self.nodes.len()
        &&& self.levels@.len() == self.nodes.len()
        &&& self.nodes.len() >= 1
        &&& self.frames[0].number() == self.ppn.0
        &&& self.levels@[0] == 2
        &&& forall|i: int| 0 <= i < self.frames.len() ==> (#[trigger] self.frames[i]).number() < 0x1000_0000_0000
        &&& forall|i: int, k: int|
            0 <= i < self.frames.len() && 0 <= k < self.frames.len() && i != k
                ==> (#[trigger] self.frames[i]).number() != (#[trigger] self.frames[k]).number()
        &&& forall|i: int| 0 <= i < self.nodes.len() ==> (#[trigger] self.nodes@[i])@.len() == 512
        &&& forall|i: int| 0 <= i < self.nodes.len() ==> 0 <= #[trigger] self.levels@[i] <= 2
        &&& forall|n: int, j: int|
            #[trigger] self.points(n, j) ==> {
                &&& 0 < self.child(n, j) < self.nodes.len()
                &&& self.levels@[self.child(n, j)] == self.levels@[n] - 1
            }
        &&& forall|n: int, j: int, m: int, k: int|
            #[trigger] self.points(n, j) && #[trigger] self.points(m, k) && self.child(n, j)
                == self.child(m, k) ==> n == m && j == k
    }

    /// Every table frame is one that the allocator has handed out.
    pub closed spec fn lent_from(&self, a: AllocState) -> bool {
        forall|i: int| 0 <= i < self.frames.len() ==> a.lent(#[trigger] self.frames[i].number())
    }

    pub closed spec fn root(&self) -> u64 {
        self.ppn.0
    }

    /// The leaf that the walk for `v` reaches, if every entry on the way is valid.
    closed spec fn walk(&self, v: int) -> Option<PTE> {
        let ix = sv39_indexes(v);
        if !pte_valid(self.entry(0, ix[0]).bits) {
            None
        } else {
            let n1 = self.child(0, ix[0]);
            if !pte_valid(self.entry(n1, ix[1]).bits) {
                None
            } else {
                let n0 = self.child(n1, ix[1]);
                if !pte_valid(self.entry(n0, ix[2]).bits) {
                    None
                } else {
                    Some(self.entry(n0, ix[2]))
                }
            }
        }
    }

    /// The valid leaves, by virtual page number.
    pub closed spec fn mapping(&self) -> Map<int, PTE> {
        Map::new(|v: int| 0 <= v < 0x800_0000 && self.walk(v) is Some, |v: int| self.walk(v).unwrap())
    }

    /// Table frames that mapping `v` would have to allocate.
    pub closed spec fn frames_needed(&self, v: int) -> nat {
        let ix = sv39_indexes(v);
        if !pte_valid(self.entry(0, ix[0]).bits) {
            2
        } else if !pte_valid(self.entry(self.child(0, ix[0]), ix[1]).bits) {
            1
        } else {
            0
        }
    }

    proof fn lemma_node_of(&self, i: int)
        requires
            self.wf(),
            0 <= i < self.frames.len(),
        ensures
            self.node_of(self.frames[i].number()) == i,
    {
        let p = self.frames[i].number();
        assert(exists|k: int| 0 <= k < self.frames.len() && self.frames[k].number() == p);
        let k = choose|k: int| 0 <= k < self.frames.len() && self.frames[k].number() == p;
        assert(k == i);
    }

    /// The child that a valid entry of a non-leaf table points to.
    fn find_node(&self, p: u64) -> (r: usize)
        requires
            self.wf(),
            exists|i: int| 0 <= i < self.frames.len() && self.frames[i].number() == p,
        ensures
            r as int == self.node_of(p),
            r < self.nodes.len(),
    {
        let mut i: usize = 0;
        while i < self.frames.len()
            invariant
                self.wf(),
                i <= self.frames.len(),
                forall|k: int| 0 <= k < i ==> self.frames[k].number() != p,
                exists|k: int| 0 <= k < self.frames.len() && self.frames[k].number() == p,
            decreases self.frames.len() - i,
        {
            if self.frames[i].ppn().0 == p {
                proof {
                    self.lemma_node_of(i as int);
                }
                return i;
            }
            i = i + 1;
        }
        proof {
            let k = choose|k: int| 0 <= k < self.frames.len() && self.frames[k].number() == p;
            assert(self.frames[k].number() != p);
        }
        0
    }

    /// The node that entry `j` of node `n` points to, when it is valid.
    fn follow(&self, n: usize, j: usize) -> (r: usize)
        requires
            self.wf(),
            self.points(n as int, j as int),
        ensures
            r as int == self.child(n as int, j as int),
            0 < r < self.nodes.len(),
            self.levels@[r as int] == self.levels@[n as int] - 1,
    {
        let e = self.nodes[n][j];
        let ghost c = self.child(n as int, j as int);
        assert(self.frames[c].number() == pte_ppn(e.bits)) by {
            assert(c >= 0);
        }
        self.find_node(e.ppn().0)
    }

    /// A table whose root is a fresh frame; `None` when no frame is left.
    pub fn new(frames: &mut FrameAllocator) -> (r: Option<PageTable>)
        requires
            old(frames)@.wf(),
        ensures
            final(frames)@ == old(frames)@.after_alloc(),
            (r is None <==> old(frames)@.next_frame() is None),
            (r matches Some(t) ==> {
                &&& t.wf()
                &&& t.lent_from(final(frames)@)
                &&& t.mapping() == Map::<int, PTE>::empty()
                &&& Some(t.root()) == old(frames)@.next_frame()
            }),
    {
        proof {
            lemma_after_alloc(old(frames)@);
        }
        match Frame::allocate(frames) {
            None => None,
            Some(frame) => {
                let ppn = frame.ppn();
                let mut root: Vec<PTE> = Vec::new();
                while root.len() < 512
                    invariant
                        root@.len() <= 512,
                        forall|k: int| 0 <= k < root@.len() ==> !pte_valid(#[trigger] root@[k].bits),
                    decreases 512 - root@.len(),
                {
                    root.push(PTE::empty());
                }
                let mut fs: Vec<Frame> = Vec::new();
                fs.push(frame);
                let mut ns: Vec<Vec<PTE>> = Vec::new();
                ns.push(root);
                let ghost lv: Seq<int> = seq![2int];
                let t = PageTable { ppn, frames: fs, nodes: ns, levels: Ghost(lv) };
                assert forall|n: int, j: int| !#[trigger] t.points(n, j) by {
                    if 0 <= n < t.nodes.len() && 0 <= j < 512 {
                        assert(n == 0);
                        assert(!pte_valid(t.nodes@[0]@[j].bits));
                    }
                }
                assert(t.mapping() =~= Map::<int, PTE>::empty());
                Some(t)
            },
        }
    }

    pub fn ppn(&self) -> (r: PhysPageNum)
        ensures
            r.0 == self.root(),
    {
        self.ppn
    }

    /// The valid leaf for `vpn`, if there is one.
    pub fn translate(&self, vpn: VirtPageNum) -> (r: Option<PTE>)
        requires
            self.wf(),
            vpn.0 < 0x800_0000,
        ensures
            r == (if self.mapping().contains_key(vpn.0 as int) {
                Some(self.mapping()[vpn.0 as int])
            } else {
                None
            }),
    {
        let ix = vpn.indexes();
        let e2 = self.nodes[0][ix[0]];
        if !e2.is_valid() {
            return None;
        }
        let n1 = self.follow(0, ix[0]);
        let e1 = self.nodes[n1][ix[1]];
        if !e1.is_valid() {
            return None;
        }
        let n0 = self.follow(n1, ix[1]);
        let e0 = self.nodes[n0][ix[2]];
        if !e0.is_valid() {
            return None;
        }
        Some(e0)
    }

    /// The physical address that `va` maps to, if its page has a valid leaf.
    pub fn translate_addr(&self, va: VirtAddr) -> (r: Option<PhysAddr>)
        requires
            self.wf(),
            va.0 < 0x80_0000_0000,
        ensures
            r == (if self.mapping().contains_key(page_floor(va.0 as int)) {
                Some(PhysAddr((pte_ppn(self.mapping()[page_floor(va.0 as int)].bits) * 4096 + page_off(va.0 as int)) as u64))
            } else {
                None
            }),
    {
        let vpn = va.floor();
        match self.translate(vpn) {
            None => None,
            Some(pte) => {
                let base = pte.ppn().addr();
                Some(PhysAddr(base.0 + va.page_offset()))
            },
        }
    }

    /// Links a fresh, empty table frame into entry `slot` of node `parent`.
    fn add_node(&mut self, f: Frame, parent: usize, slot: usize) -> (r: usize)
        requires
            old(self).wf(),
            parent < old(self).nodes.len(),
            slot < 512,
            old(self).levels@[parent as int] > 0,
            !pte_valid(old(self).entry(parent as int, slot as int).bits),
            f.number() < 0x1000_0000_0000,
            forall|i: int| 0 <= i < old(self).frames.len() ==> (#[trigger] old(self).frames[i]).number() != f.number(),
        ensures
            final(self).wf(),
            final(self).mapping() == old(self).mapping(),
            r == old(self).nodes.len(),
            final(self).points(parent as int, slot as int),
            final(self).child(parent as int, slot as int) == r,
            final(self).levels@[r as int] == old(self).levels@[parent as int] - 1,
            final(self).frames@ == old(self).frames@.push(f),
            final(self).ppn == old(self).ppn,
            forall|j: int| 0 <= j < 512 ==> !pte_valid(#[trigger] final(self).entry(r as int, j).bits),
            forall|n: int, j: int|
                0 <= n < old(self).nodes.len() && 0 <= j < 512 && (n != parent || j != slot)
                    ==> #[trigger] final(self).entry(n, j) == old(self).entry(n, j),
            forall|n: int, j: int| #[trigger] old(self).points(n, j) ==> final(self).points(n, j)
                && final(self).child(n, j) == old(self).child(n, j),
    {
        let ghost o = *self;
        let ppn = f.ppn();
        let mut node: Vec<PTE> = Vec::new();
        while node.len() < 512
            invariant
                node@.len() <= 512,
                forall|k: int| 0 <= k < node@.len() ==> !pte_valid(#[trigger] node@[k].bits),
            decreases 512 - node@.len(),
        {
            node.push(PTE::empty());
        }
        let r = self.nodes.len();
        self.frames.push(f);
        self.nodes.push(node);
        let ghost lv = o.levels@[parent as int] - 1;
        self.levels = Ghost(self.levels@.push(lv));
        let e = PTE::new(ppn, PTEFlags { bits: PTE_V });
        self.nodes[parent].set(slot, e);
        assert(1u8 & 1 == 1) by (bit_vector);
        proof {
            let t = *self;
            assert(t.frames[r as int] == f);
            // Old table frames keep their index; the new one is found at `r`.
            assert forall|i: int| 0 <= i < o.frames.len() implies t.node_of(
                #[trigger] o.frames[i].number(),
            ) == i by {
                assert(t.frames[i] == o.frames[i]);
                let p = o.frames[i].number();
                assert(exists|k: int| 0 <= k < t.frames.len() && t.frames[k].number() == p);
                let k = choose|k: int| 0 <= k < t.frames.len() && t.frames[k].number() == p;
                if k != i {
                    if k < o.frames.len() {
                        assert(t.frames[k] == o.frames[k]);
                    }
                }
            }
            assert(t.node_of(f.number()) == r) by {
                assert(exists|k: int| 0 <= k < t.frames.len() && t.frames[k].number() == f.number());
                let k = choose|k: int| 0 <= k < t.frames.len() && t.frames[k].number() == f.number();
                if k != r {
                    assert(t.frames[k] == o.frames[k]);
                }
            }
            assert forall|n: int, j: int|
                0 <= n < o.nodes.len() && 0 <= j < 512 && (n != parent || j != slot)
                    implies #[trigger] t.entry(n, j) == o.entry(n, j) by {
                if n != parent {
                    assert(t.nodes@[n] == o.nodes@[n]);
                }
            }
            assert forall|j: int| 0 <= j < 512 implies !pte_valid(#[trigger] t.entry(r as int, j).bits) by {
                assert(t.nodes@[r as int]@ == node@);
            }
            assert(t.entry(parent as int, slot as int) == e);
            assert(t.child(parent as int, slot as int) == r);
            // Old pointers keep their targets.
            assert forall|n: int, j: int| #[trigger] o.points(n, j) implies t.points(n, j) && t.child(n, j)
                == o.child(n, j) && o.child(n, j) < r by {
                assert(n != parent || j != slot);
                assert(t.entry(n, j) == o.entry(n, j));
                let c = o.child(n, j);
                assert(o.frames[c].number() == pte_ppn(o.entry(n, j).bits)) by {
                    assert(exists|k: int| 0 <= k < o.frames.len() && o.frames[k].number() == pte_ppn(o.entry(n, j).bits));
                }
                assert(t.node_of(o.frames[c].number()) == c);
            }
            assert forall|n: int, j: int| #[trigger] t.points(n, j) implies (n == parent && j == slot)
                || o.points(n, j) by {
                if n == r {
                    assert(!pte_valid(t.entry(r as int, j).bits));
                } else if n != parent || j != slot {
                    assert(t.entry(n, j) == o.entry(n, j));
                }
            }
            assert forall|i: int| 0 <= i < t.nodes.len() implies (#[trigger] t.nodes@[i])@.len() == 512 by {
                if i < o.nodes.len() && i != parent {
                    assert(t.nodes@[i] == o.nodes@[i]);
                }
            }
            assert forall|i: int| 0 <= i < t.frames.len() implies (#[trigger] t.frames[i]).number() < 0x1000_0000_0000 by {
                if i < o.frames.len() {
                    assert(t.frames[i] == o.frames[i]);
                }
            }
            assert forall|i: int, k: int|
                0 <= i < t.frames.len() && 0 <= k < t.frames.len() && i != k
                    implies (#[trigger] t.frames[i]).number() != (#[trigger] t.frames[k]).number() by {
                if i < o.frames.len() {
                    assert(t.frames[i] == o.frames[i]);
                }
                if k < o.frames.len() {
                    assert(t.frames[k] == o.frames[k]);
                }
            }
            assert forall|n: int, j: int|
                #[trigger] t.points(n, j) implies {
                    &&& 0 < t.child(n, j) < t.nodes.len()
                    &&& t.levels@[t.child(n, j)] == t.levels@[n] - 1
                } by {
                if !(n == parent && j == slot) {
                    assert(o.points(n, j));
                }
            }
            assert forall|n: int, j: int, m: int, k: int|
                #[trigger] t.points(n, j) && #[trigger] t.points(m, k) && t.child(n, j) == t.child(m, k)
                    implies n == m && j == k by {
                if !(n == parent && j == slot) {
                    assert(o.points(n, j));
                }
                if !(m == parent && k == slot) {
                    assert(o.points(m, k));
                }
            }
            assert(t.wf());
            // No walk changes: the new entry leads to an empty table.
            assert forall|v: int| 0 <= v < 0x800_0000 implies #[trigger] t.walk(v) == o.walk(v) by {
                let ix = sv39_indexes(v);
                if pte_valid(o.entry(0, ix[0]).bits) {
                    assert(o.points(0, ix[0]));
                    let n1 = o.child(0, ix[0]);
                    if pte_valid(o.entry(n1, ix[1]).bits) {
                        assert(o.points(n1, ix[1]));
                        let n0 = o.child(n1, ix[1]);
                        assert(o.levels@[n0] == 0);
                        assert(t.entry(n0, ix[2]) == o.entry(n0, ix[2]));
                    } else if n1 == parent && ix[1] == slot {
                        assert(!pte_valid(t.entry(r as int, ix[2]).bits));
                    } else {
                        assert(t.entry(n1, ix[1]) == o.entry(n1, ix[1]));
                    }
                } else if parent == 0 && ix[0] == slot {
                    assert(!pte_valid(t.entry(r as int, ix[1]).bits));
                } else {
                    assert(t.entry(0, ix[0]) == o.entry(0, ix[0]));
                }
            }
            assert(t.mapping() =~= o.mapping());
        }
        r
    }

    /// Writing the leaf on the walk of `v` changes the mapping of `v` only.
    proof fn lemma_leaf_write(o: PageTable, t: PageTable, v: int, n0: int, c: int, e: PTE)
        requires
            o.wf(),
            0 <= v < 0x800_0000,
            c == sv39_indexes(v)[2],
            pte_valid(o.entry(0, sv39_indexes(v)[0]).bits),
            pte_valid(o.entry(o.child(0, sv39_indexes(v)[0]), sv39_indexes(v)[1]).bits),
            n0 == o.child(o.child(0, sv39_indexes(v)[0]), sv39_indexes(v)[1]),
            t.frames == o.frames,
            t.levels == o.levels,
            t.ppn == o.ppn,
            t.nodes.len() == o.nodes.len(),
            t.nodes@[n0]@ == o.nodes@[n0]@.update(c, e),
            forall|n: int| 0 <= n < o.nodes.len() && n != n0 ==> #[trigger] t.nodes@[n] == o.nodes@[n],
        ensures
            t.wf(),
            t.mapping() == (if pte_valid(e.bits) {
                o.mapping().insert(v, e)
            } else {
                o.mapping().remove(v)
            }),
    {
        let ix = sv39_indexes(v);
        assert(o.points(0, ix[0]));
        let n1 = o.child(0, ix[0]);
        assert(o.points(n1, ix[1]));
        assert(o.levels@[n0] == 0);
        assert forall|n: int, j: int| 0 <= n < o.nodes.len() && 0 <= j < 512 && (n != n0 || j != c)
            implies #[trigger] t.entry(n, j) == o.entry(n, j) by {
            if n != n0 {
                assert(t.nodes@[n] == o.nodes@[n]);
            }
        }
        assert forall|p: u64| #[trigger] t.node_of(p) == o.node_of(p) by {}
        assert forall|n: int, j: int| #[trigger] t.points(n, j) == o.points(n, j) by {
            if 0 <= n < o.nodes.len() && 0 <= j < 512 && n != n0 {
                assert(t.entry(n, j) == o.entry(n, j));
            }
        }
        assert forall|n: int, j: int| #[trigger] t.points(n, j) implies t.child(n, j) == o.child(n, j) by {
            assert(n != n0);
            assert(t.entry(n, j) == o.entry(n, j));
        }
        assert forall|i: int| 0 <= i < t.nodes.len() implies (#[trigger] t.nodes@[i])@.len() == 512 by {
            if i != n0 {
                assert(t.nodes@[i] == o.nodes@[i]);
            }
        }
        assert forall|n: int, j: int|
            #[trigger] t.points(n, j) implies {
                &&& 0 < t.child(n, j) < t.nodes.len()
                &&& t.levels@[t.child(n, j)] == t.levels@[n] - 1
            } by {
            assert(o.points(n, j));
        }
        assert forall|n: int, j: int, m: int, k: int|
            #[trigger] t.points(n, j) && #[trigger] t.points(m, k) && t.child(n, j) == t.child(m, k)
                implies n == m && j == k by {
            assert(o.points(n, j));
            assert(o.points(m, k));
        }
        assert(t.wf());
        assert forall|w: int| 0 <= w < 0x800_0000 && w != v implies #[trigger] t.walk(w) == o.walk(w) by {
            let iw = sv39_indexes(w);
            assert(t.entry(0, iw[0]) == o.entry(0, iw[0]));
            if pte_valid(o.entry(0, iw[0]).bits) {
                assert(o.points(0, iw[0]));
                let m1 = o.child(0, iw[0]);
                assert(o.levels@[m1] == 1);
                assert(t.entry(m1, iw[1]) == o.entry(m1, iw[1]));
                if pte_valid(o.entry(m1, iw[1]).bits) {
                    assert(o.points(m1, iw[1]));
                    let m0 = o.child(m1, iw[1]);
                    if m0 == n0 && iw[2] == c {
                        assert(m1 == n1 && iw[1] == ix[1]);
                        assert(iw[0] == ix[0]);
                        assert(iw == ix);
                        lemma_indexes_injective(w as u64, v as u64);
                    }
                    assert(t.entry(m0, iw[2]) == o.entry(m0, iw[2]));
                }
            }
        }
        assert(t.entry(n0, c) == e);
        if pte_valid(e.bits) {
            assert(t.mapping() =~= o.mapping().insert(v, e));
        } else {
            assert(t.mapping() =~= o.mapping().remove(v));
        }
    }

    /// Maps `vpn` to `ppn` with `flags | V`, creating missing intermediate
    /// tables. Refused, with nothing changed, when `vpn` already has a valid
    /// leaf or when the allocator cannot supply the tables.
    pub fn map(&mut self, frames: &mut FrameAllocator, vpn: VirtPageNum, ppn: PhysPageNum, flags: PTEFlags) -> (r: Result<(), PagingError>)
        requires
            old(self).wf(),
            old(frames)@.wf(),
            old(self).lent_from(old(frames)@),
            vpn.0 < 0x800_0000,
            ppn.0 < 0x1000_0000_0000,
        ensures
            final(self).wf(),
            final(frames)@.wf(),
            final(self).lent_from(final(frames)@),
            final(self).root() == old(self).root(),
            old(self).frames_needed(vpn.0 as int) <= 2,
            forall|p: int| #[trigger] final(frames)@.holds(p) ==> old(frames)@.holds(p),
            forall|p: u64| #[trigger] old(frames)@.lent(p) ==> final(frames)@.lent(p),
            (r is Ok) <==> (!old(self).mapping().contains_key(vpn.0 as int)
                && old(frames)@.available() >= old(self).frames_needed(vpn.0 as int)),
            (r == Err::<(), PagingError>(PagingError::AlreadyMapped)) <==> old(self).mapping().contains_key(vpn.0 as int),
            (r == Err::<(), PagingError>(PagingError::OutOfFrames)) <==> (!old(self).mapping().contains_key(vpn.0 as int)
                && old(frames)@.available() < old(self).frames_needed(vpn.0 as int)),
            (r is Ok ==> final(self).mapping() == old(self).mapping().insert(
                vpn.0 as int,
                PTE { bits: pte_bits(ppn.0, flags.bits | PTE_V) },
            )),
            (r is Ok ==> final(frames)@.available() == old(frames)@.available() - old(self).frames_needed(vpn.0 as int)),
            (r is Err ==> *final(self) == *old(self) && *final(frames) == *old(frames)),
    {
        let ghost o = *self;
        let ghost a0 = frames@;
        let ghost v = vpn.0 as int;
        let ix = vpn.indexes();
        let e2 = self.nodes[0][ix[0]];
        let mut needed: u64 = 0;
        if !e2.is_valid() {
            needed = 2;
        } else {
            let n1 = self.follow(0, ix[0]);
            let e1 = self.nodes[n1][ix[1]];
            if !e1.is_valid() {
                needed = 1;
            } else {
                let n0 = self.follow(n1, ix[1]);
                if self.nodes[n0][ix[2]].is_valid() {
                    assert(o.mapping().contains_key(v));
                    return Err(PagingError::AlreadyMapped);
                }
            }
        }
        assert(needed == o.frames_needed(v));
        assert(!o.mapping().contains_key(v));
        if !frames.has_available(needed) {
            return Err(PagingError::OutOfFrames);
        }
        // The table under the root.
        let n1 = if e2.is_valid() {
            self.follow(0, ix[0])
        } else {
            proof {
                lemma_after_alloc(frames@);
            }
            let f = match Frame::allocate(frames) {
                Some(f) => f,
                None => {
                    return Err(PagingError::OutOfFrames);
                },
            };
            assert forall|i: int| 0 <= i < self.frames.len() implies (#[trigger] self.frames[i]).number() != f.number() by {
                assert(a0.lent(self.frames[i].number()));
            }
            let n = self.add_node(f, 0, ix[0]);
            assert forall|i: int| 0 <= i < self.frames.len() implies frames@.lent(#[trigger] self.frames[i].number()) by {
                if i < o.frames.len() {
                    assert(self.frames[i] == o.frames[i]);
                    assert(a0.lent(o.frames[i].number()));
                }
            }
            n
        };
        let ghost a1 = frames@;
        let ghost t1 = *self;
        assert(t1.points(0, ix[0] as int) && t1.child(0, ix[0] as int) == n1);
        assert(t1.levels@[n1 as int] == 1);
        // The leaf table.
        let e1 = self.nodes[n1][ix[1]];
        let n0 = if e1.is_valid() {
            self.follow(n1, ix[1])
        } else {
            proof {
                lemma_after_alloc(frames@);
            }
            let f = match Frame::allocate(frames) {
                Some(f) => f,
                None => {
                    return Err(PagingError::OutOfFrames);
                },
            };
            assert forall|i: int| 0 <= i < self.frames.len() implies (#[trigger] self.frames[i]).number() != f.number() by {
                assert(a1.lent(self.frames[i].number()));
            }
            let n = self.add_node(f, n1, ix[1]);
            assert forall|i: int| 0 <= i < self.frames.len() implies frames@.lent(#[trigger] self.frames[i].number()) by {
                if i < t1.frames.len() {
                    assert(self.frames[i] == t1.frames[i]);
                    assert(a1.lent(t1.frames[i].number()));
                }
            }
            n
        };
        let ghost t2 = *self;
        assert(t2.points(0, ix[0] as int) && t2.child(0, ix[0] as int) == n1);
        assert(t2.points(n1 as int, ix[1] as int) && t2.child(n1 as int, ix[1] as int) == n0);
        assert(t2.mapping() == o.mapping());
        let e = PTE::new(ppn, flags.union(PTEFlags { bits: PTE_V }));
        self.nodes[n0].set(ix[2], e);
        proof {
            let fb = flags.bits;
            let fl = fb | PTE_V;
            assert(fl & 1 == 1) by (bit_vector)
                requires
                    fl == fb | 1u8,
            ;
            assert forall|n: int| 0 <= n < t2.nodes.len() && n != n0 implies #[trigger] self.nodes@[n] == t2.nodes@[n] by {}
            PageTable::lemma_leaf_write(t2, *self, v, n0 as int, ix[2] as int, e);
            assert forall|i: int| 0 <= i < self.frames.len() implies frames@.lent(#[trigger] self.frames[i].number()) by {
                assert(self.frames[i] == t2.frames[i]);
            }
        }
        Ok(())
    }

    /// Clears the valid leaf of `vpn`; refused, with nothing changed, when
    /// there is none.
    pub fn unmap(&mut self, vpn: VirtPageNum) -> (r: Result<(), PagingError>)
        requires
            old(self).wf(),
            vpn.0 < 0x800_0000,
        ensures
            final(self).wf(),
            final(self).root() == old(self).root(),
            forall|a: AllocState| #[trigger] old(self).lent_from(a) ==> final(self).lent_from(a),
            forall|p: u64| #[trigger] final(self).owns(p) == old(self).owns(p),
            (r is Ok) <==> old(self).mapping().contains_key(vpn.0 as int),
            (r is Ok ==> final(self).mapping() == old(self).mapping().remove(vpn.0 as int)),
            (r is Err ==> r == Err::<(), PagingError>(PagingError::NotMapped) && *final(self) == *old(self)),
    {
        let ghost o = *self;
        let ix = vpn.indexes();
        let e2 = self.nodes[0][ix[0]];
        if !e2.is_valid() {
            return Err(PagingError::NotMapped);
        }
        let n1 = self.follow(0, ix[0]);
        let e1 = self.nodes[n1][ix[1]];
        if !e1.is_valid() {
            return Err(PagingError::NotMapped);
        }
        let n0 = self.follow(n1, ix[1]);
        if !self.nodes[n0][ix[2]].is_valid() {
            return Err(PagingError::NotMapped);
        }
        let e = PTE::empty();
        self.nodes[n0].set(ix[2], e);
        proof {
            assert forall|n: int| 0 <= n < o.nodes.len() && n != n0 implies #[trigger] self.nodes@[n] == o.nodes@[n] by {}
            PageTable::lemma_leaf_write(o, *self, vpn.0 as int, n0 as int, ix[2] as int, e);
            assert forall|p: u64| #[trigger] self.owns(p) == o.owns(p) by {
                if o.owns(p) {
                    let i = choose|i: int| 0 <= i < o.frames.len() && o.frames[i].number() == p;
                    assert(self.frames[i] == o.frames[i]);
                }
                if self.owns(p) {
                    let i = choose|i: int| 0 <= i < self.frames.len() && self.frames[i].number() == p;
                    assert(self.frames[i] == o.frames[i]);
                }
            }
            assert forall|a: AllocState| #[trigger] o.lent_from(a) implies self.lent_from(a) by {
                assert forall|i: int| 0 <= i < self.frames.len() implies a.lent(#[trigger] self.frames[i].number()) by {
                    assert(self.frames[i] == o.frames[i]);
                }
            }
        }
        Ok(())
    }

    /// Table frames that mapping `vpn` would allocate.
    pub fn tables_needed(&self, vpn: VirtPageNum) -> (r: u64)
        requires
            self.wf(),
            vpn.0 < 0x800_0000,
        ensures
            r == self.frames_needed(vpn.0 as int),
            r <= 2,
    {
        let ix = vpn.indexes();
        if !self.nodes[0][ix[0]].is_valid() {
            return 2;
        }
        let n1 = self.follow(0, ix[0]);
        if !self.nodes[n1][ix[1]].is_valid() {
            1
        } else {
            0
        }
    }

    /// An allocator that still counts every frame as handed out still lends
    /// the table its frames.
    pub proof fn lemma_lent_mono(&self, a: AllocState, b: AllocState)
        requires
            self.lent_from(a),
            forall|p: u64| #[trigger] a.lent(p) ==> b.lent(p),
        ensures
            self.lent_from(b),
    {
        assert forall|i: int| 0 <= i < self.frames.len() implies b.lent(#[trigger] self.frames[i].number()) by {
            assert(a.lent(self.frames[i].number()));
        }
    }

    /// Frame `p` is one of the table's own frames.
    pub closed spec fn owns(&self, p: u64) -> bool {
        exists|i: int| 0 <= i < self.frames.len() && self.frames[i].number() == p
    }

    /// Freeing a frame that the table does not own keeps its frames lent.
    pub proof fn lemma_lent_after_free(&self, a: AllocState, p: u64)
        requires
            self.lent_from(a),
            !self.owns(p),
        ensures
            self.lent_from(a.after_free(p)),
    {
        assert forall|i: int| 0 <= i < self.frames.len() implies a.after_free(p).lent(#[trigger] self.frames[i].number()) by {
            assert(a.lent(self.frames[i].number()));
            assert(self.frames[i].number() != p);
            assert(!a.after_free(p).free.contains(self.frames[i].number())) by {
                let q = self.frames[i].number();
                if a.after_free(p).free.contains(q) {
                    let k = choose|k: int| 0 <= k < a.after_free(p).free.len() && a.after_free(p).free[k] == q;
                    if k > 0 {
                        assert(a.free[k - 1] == q);
                    }
                }
            }
        }
    }

    /// Table frames, root first.
    pub closed spec fn node_count(&self) -> nat {
        self.frames.len() as nat
    }

    /// The page number of table frame `i`.
    pub closed spec fn node_frame(&self, i: int) -> u64 {
        self.frames[i].number()
    }

    /// The 512 entries of table frame `i`.
    pub closed spec fn node_entries(&self, i: int) -> Seq<PTE> {
        self.nodes@[i]@
    }

    /// Every table frame as its page number and the 4096 bytes the hardware
    /// walks: what the platform copies into RAM before activating the table.
    pub fn table_pages(&self) -> (r: Vec<(u64, Vec<u8>)>)
        requires
            self.wf(),
        ensures
            r@.len() == self.node_count(),
            forall|i: int| 0 <= i < r@.len() ==> (#[trigger] r@[i]).0 == self.node_frame(i)
                && r@[i].1@ == ptes_image(self.node_entries(i)),
            forall|i: int| 0 <= i < r@.len() ==> (#[trigger] self.node_entries(i)).len() == 512,
            self.node_count() > 0 && self.node_frame(0) == self.root(),
    {
        let mut r: Vec<(u64, Vec<u8>)> = Vec::new();
        let mut i: usize = 0;
        while i < self.nodes.len()
            invariant
                self.wf(),
                i <= self.nodes.len(),
                r@.len() == i,
                forall|j: int| 0 <= j < i ==> (#[trigger] r@[j]).0 == self.node_frame(j)
                    && r@[j].1@ == ptes_image(self.node_entries(j)),
            decreases self.nodes.len() - i,
        {
            let mut bytes: Vec<u8> = Vec::new();
            let mut j: usize = 0;
            while j < self.nodes[i].len()
                invariant
                    i < self.nodes.len(),
                    j <= self.nodes@[i as int]@.len(),
                    bytes@ == ptes_image(self.nodes@[i as int]@.subrange(0, j as int)),
                decreases self.nodes@[i as int]@.len() - j,
            {
                let e = self.nodes[i][j];
                push_le_u64(&mut bytes, e.bits);
                proof {
                    let es = self.nodes@[i as int]@.subrange(0, j + 1);
                    assert(es.drop_last() =~= self.nodes@[i as int]@.subrange(0, j as int));
                    assert(es.last() == e);
                }
                j = j + 1;
            }
            assert(self.nodes@[i as int]@.subrange(0, j as int) =~= self.nodes@[i as int]@);
            r.push((self.frames[i].ppn().0, bytes));
            i = i + 1;
        }
        r
    }

    /// Mapped pages are Sv39 page numbers: below 2^27.
    pub proof fn lemma_mapping_in_range(&self, v: int)
        requires
            self.mapping().contains_key(v),
        ensures
            0 <= v < 0x800_0000,
    {
    }

    /// A fresh table owes success to `map` with three free frames, and
    /// mapping a page then reading it back gives the page number, the
    /// `R, W, X, U` flags asked for, and `V`; unmapping it leaves no leaf.
    pub proof fn lemma_fresh_round_trip(&self, a: AllocState, vpn: int, ppn: u64, flags: u8)
        requires
            self.wf(),
            self.mapping() == Map::<int, PTE>::empty(),
            a.available() >= 3,
            0 <= vpn < 0x800_0000,
            ppn < 0x1000_0000_0000,
        ensures
            !self.mapping().contains_key(vpn),
            a.available() >= self.frames_needed(vpn),
            ({
                let m = self.mapping().insert(vpn, PTE { bits: pte_bits(ppn, flags | PTE_V) });
                &&& m.contains_key(vpn)
                &&& pte_ppn(m[vpn].bits) == ppn
                &&& pte_flags(m[vpn].bits) & 0x1e == flags & 0x1e
                &&& pte_valid(m[vpn].bits)
                &&& !m.remove(vpn).contains_key(vpn)
            }),
    {
        lemma_map_round_trip(self.mapping(), vpn, ppn, flags);
    }
}

} // verus!
