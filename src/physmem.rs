//! Physical memory as the kernel's loader and services see it: bytes at
//! physical addresses, where a page nobody wrote reads as zeros.
use vstd::prelude::*;
use vstd::arithmetic::div_mod::lemma_mod_breakdown;

verus! {

pub open spec fn pow256(n: nat) -> nat
    decreases n,
{
    if n == 0 {
        1
    } else {
        256 * pow256((n - 1) as nat)
    }
}

/// The value of little-endian bytes.
pub open spec fn le_value(s: Seq<u8>) -> nat
    decreases s.len(),
{
    if s.len() == 0 {
        0
    } else {
        s[0] as nat + 256 * le_value(s.drop_first())
    }
}

/// The `n` low bytes of `v`, least significant first.
pub open spec fn le_bytes(v: nat, n: nat) -> Seq<u8>
    decreases n,
{
    if n == 0 {
        Seq::empty()
    } else {
        seq![(v % 256) as u8].add(le_bytes(v / 256, (n - 1) as nat))
    }
}

/// Bytes written little-endian read back as the value, reduced to their width.
pub proof fn lemma_le_round_trip(v: nat, n: nat)
    ensures
        le_bytes(v, n).len() == n,
        le_value(le_bytes(v, n)) == v % pow256(n),
    decreases n,
{
    if n > 0 {
        lemma_le_round_trip(v / 256, (n - 1) as nat);
        let s = le_bytes(v, n);
        assert(s.drop_first() =~= le_bytes(v / 256, (n - 1) as nat));
        assert(pow256(n) == 256 * pow256((n - 1) as nat));
        lemma_pow256_pos((n - 1) as nat);
        lemma_mod_breakdown(v as int, 256, pow256((n - 1) as nat) as int);
    }
}

proof fn lemma_pow256_pos(n: nat)
    ensures
        pow256(n) > 0,
    decreases n,
{
    if n > 0 {
        lemma_pow256_pos((n - 1) as nat);
    }
}

/// A 64-bit word stored little-endian reads back unchanged.
pub proof fn lemma_u64_round_trip(v: u64)
    ensures
        le_bytes(v as nat, 8).len() == 8,
        le_value(le_bytes(v as nat, 8)) == v,
{
    lemma_le_round_trip(v as nat, 8);
    lemma_pow256_8();
}

pub proof fn lemma_le_bound(s: Seq<u8>)
    ensures
        le_value(s) < pow256(s.len()),
    decreases s.len(),
{
    if s.len() > 0 {
        lemma_le_bound(s.drop_first());
        assert(pow256(s.len()) == 256 * pow256(s.drop_first().len()));
        assert(s[0] < 256);
        let a = s[0] as nat;
        let t = le_value(s.drop_first());
        let p = pow256(s.drop_first().len());
        assert(a + 256 * t < 256 * p) by (nonlinear_arith)
            requires
                a < 256,
                t < p,
        ;
    }
}

pub proof fn lemma_pow256_mono(a: nat, b: nat)
    requires
        a <= b,
    ensures
        pow256(a) <= pow256(b),
    decreases b,
{
    if a < b {
        lemma_pow256_mono(a, (b - 1) as nat);
        lemma_pow256_pos((b - 1) as nat);
    }
}

pub proof fn lemma_pow256_8()
    ensures
        pow256(8) == 0x1_0000_0000_0000_0000,
{
    assert(pow256(0) == 1);
    assert(pow256(1) == 0x100);
    assert(pow256(2) == 0x1_0000);
    assert(pow256(3) == 0x100_0000);
    assert(pow256(4) == 0x1_0000_0000);
    assert(pow256(5) == 0x100_0000_0000);
    assert(pow256(6) == 0x1_0000_0000_0000);
    assert(pow256(7) == 0x100_0000_0000_0000);
    assert(pow256(8) == 0x1_0000_0000_0000_0000);
}

/// Appends the 8 little-endian bytes of `v`.
pub fn push_le_u64(out: &mut Vec<u8>, v: u64)
    ensures
        final(out)@ == old(out)@.add(le_bytes(v as nat, 8)),
{
    let ghost base = out@;
    let mut x = v;
    let mut k: u64 = 0;
    proof {
        lemma_le_round_trip(v as nat, 8);
        assert(le_bytes(v as nat, 8).subrange(0, 8) =~= le_bytes(v as nat, 8));
    }
    while k < 8
        invariant
            k <= 8,
            le_bytes(v as nat, 8).len() == 8,
            le_bytes(x as nat, (8 - k) as nat) == le_bytes(v as nat, 8).subrange(k as int, 8),
            out@ == base.add(le_bytes(v as nat, 8).subrange(0, k as int)),
        decreases 8 - k,
    {
        let ghost tail = le_bytes(x as nat, (8 - k) as nat);
        proof {
            lemma_le_round_trip(x as nat, (8 - k) as nat);
        }
        assert(tail[0] == (x % 256) as u8);
        assert(tail.drop_first() == le_bytes((x / 256) as nat, (8 - k - 1) as nat));
        out.push((x % 256) as u8);
        assert(le_bytes(v as nat, 8)[k as int] == tail[0]);
        assert(le_bytes(v as nat, 8).subrange(k as int + 1, 8) =~= tail.drop_first());
        assert(out@ =~= base.add(le_bytes(v as nat, 8).subrange(0, k + 1)));
        x = x / 256;
        k = k + 1;
    }
    assert(le_bytes(v as nat, 8).subrange(0, 8) =~= le_bytes(v as nat, 8));
}

pub struct PhysPage {
    ppn: u64,
    bytes: Vec<u8>,
}

/// Pages of RAM that have been written, each 4096 bytes, by page number.
pub struct PhysMem {
    pages: Vec<PhysPage>,
}

impl PhysMem {
    pub closed spec fn wf(&self) -> bool {
        &&& forall|i: int| 0 <= i < self.pages.len() ==> (#[trigger] self.pages[i]).bytes@.len() == 4096
        &&& forall|i: int, j: int|
            0 <= i < self.pages.len() && 0 <= j < self.pages.len() && i != j
                ==> (#[trigger] self.pages[i]).ppn != (#[trigger] self.pages[j]).ppn
    }

    closed spec fn has_page(&self, ppn: int) -> bool {
        exists|i: int| 0 <= i < self.pages.len() && self.pages[i].ppn == ppn
    }

    /// The byte at physical address `pa`.
    pub closed spec fn byte(&self, pa: int) -> u8 {
        if self.has_page(pa / 4096) {
            let i = choose|i: int| 0 <= i < self.pages.len() && self.pages[i].ppn == pa / 4096;
            self.pages[i].bytes@[pa % 4096]
        } else {
            0
        }
    }

    /// The `n` bytes from `pa` on.
    pub open spec fn bytes_at(&self, pa: int, n: nat) -> Seq<u8> {
        Seq::new(n, |k: int| self.byte(pa + k))
    }

    /// Memory where every byte reads zero.
    pub fn new() -> (r: PhysMem)
        ensures
            r.wf(),
            forall|pa: int| r.byte(pa) == 0,
    {
        PhysMem { pages: Vec::new() }
    }

    fn find(&self, ppn: u64) -> (r: Option<usize>)
        ensures
            (r matches Some(i) ==> i < self.pages.len() && self.pages[i as int].ppn == ppn),
            (r is None ==> !self.has_page(ppn as int)),
    {
        let mut i: usize = 0;
        while i < self.pages.len()
            invariant
                i <= self.pages.len(),
                forall|j: int| 0 <= j < i ==> self.pages[j].ppn != ppn,
            decreases self.pages.len() - i,
        {
            if self.pages[i].ppn == ppn {
                return Some(i);
            }
            i = i + 1;
        }
        None
    }

    pub fn read_byte(&self, pa: u64) -> (r: u8)
        requires
            self.wf(),
        ensures
            r == self.byte(pa as int),
    {
        match self.find(pa / 4096) {
            Some(i) => {
                assert(self.has_page(pa as int / 4096));
                self.pages[i].bytes[(pa % 4096) as usize]
            },
            None => 0,
        }
    }

    pub fn write_byte(&mut self, pa: u64, b: u8)
        requires
            old(self).wf(),
        ensures
            final(self).wf(),
            forall|q: int| #[trigger]
                final(self).byte(q) == if q == pa {
                    b
                } else {
                    old(self).byte(q)
                },
    {
        let ghost old_mem = *self;
        let ppn = pa / 4096;
        let off = (pa % 4096) as usize;
        let i = match self.find(ppn) {
            Some(i) => i,
            None => {
                let mut bytes: Vec<u8> = Vec::new();
                while bytes.len() < 4096
                    invariant
                        bytes@.len() <= 4096,
                        forall|k: int| 0 <= k < bytes@.len() ==> bytes@[k] == 0,
                    decreases 4096 - bytes@.len(),
                {
                    bytes.push(0);
                }
                self.pages.push(PhysPage { ppn, bytes });
                self.pages.len() - 1
            },
        };
        let ghost mid = *self;
        assert forall|q: int| #[trigger] mid.byte(q) == old_mem.byte(q) by {
            if mid.has_page(q / 4096) {
                let k = choose|k: int| 0 <= k < mid.pages.len() && mid.pages[k].ppn == q / 4096;
                if k < old_mem.pages.len() {
                    assert(old_mem.pages[k] == mid.pages[k]);
                    assert(old_mem.has_page(q / 4096));
                }
            } else {
                if old_mem.has_page(q / 4096) {
                    let k = choose|k: int|
                        0 <= k < old_mem.pages.len() && old_mem.pages[k].ppn == q / 4096;
                    assert(mid.pages[k] == old_mem.pages[k]);
                }
            }
        }
        assert(mid.wf());
        self.pages[i].bytes.set(off, b);
        assert(self.wf()) by {
            assert forall|j: int| 0 <= j < self.pages.len() implies (#[trigger] self.pages[j]).bytes@.len() == 4096 by {
                assert(mid.pages[j].bytes@.len() == 4096);
            }
            assert forall|j1: int, j2: int|
                0 <= j1 < self.pages.len() && 0 <= j2 < self.pages.len() && j1 != j2
                implies (#[trigger] self.pages[j1]).ppn != (#[trigger] self.pages[j2]).ppn by {
                assert(self.pages[j1].ppn == mid.pages[j1].ppn);
                assert(self.pages[j2].ppn == mid.pages[j2].ppn);
            }
        }
        assert forall|q: int| #[trigger]
            self.byte(q) == if q == pa {
                b
            } else {
                old_mem.byte(q)
            } by {
            assert(q == 4096 * (q / 4096) + q % 4096);
            assert(pa == 4096 * (pa / 4096) + pa % 4096);
            if self.has_page(q / 4096) {
                let k = choose|k: int| 0 <= k < self.pages.len() && self.pages[k].ppn == q / 4096;
                assert(mid.has_page(q / 4096)) by {
                    assert(mid.pages[k].ppn == q / 4096);
                }
                let km = choose|k: int| 0 <= k < mid.pages.len() && mid.pages[k].ppn == q / 4096;
                assert(km == k);
                let ks = choose|k: int| 0 <= k < self.pages.len() && self.pages[k].ppn == q / 4096;
                assert(ks == k);
                assert(self.byte(q) == self.pages[k].bytes@[q % 4096]);
                assert(mid.byte(q) == mid.pages[k].bytes@[q % 4096]);
                if k != i {
                    assert(self.pages[k] == mid.pages[k]);
                    assert(q / 4096 != pa / 4096);
                } else {
                    assert(self.pages[k].bytes@ == mid.pages[k].bytes@.update(off as int, b));
                    assert(q / 4096 == pa / 4096);
                    if q == pa {
                        assert(q % 4096 == off);
                    } else {
                        assert(q % 4096 != off);
                    }
                }
            } else {
                assert(self.pages[i as int].ppn == ppn);
                assert(q != pa);
                if mid.has_page(q / 4096) {
                    let k = choose|k: int| 0 <= k < mid.pages.len() && mid.pages[k].ppn == q / 4096;
                    assert(self.pages[k].ppn == mid.pages[k].ppn);
                }
                assert(mid.byte(q) == 0);
                assert(self.byte(q) == 0);
                assert(old_mem.byte(q) == mid.byte(q));
            }
        }
    }

    /// Stores `v` little-endian in the 8 bytes from `pa`.
    pub fn write_u64(&mut self, pa: u64, v: u64)
        requires
            old(self).wf(),
            pa + 8 <= u64::MAX,
        ensures
            final(self).wf(),
            forall|q: int| #[trigger]
                final(self).byte(q) == if pa <= q < pa + 8 {
                    le_bytes(v as nat, 8)[q - pa]
                } else {
                    old(self).byte(q)
                },
    {
        let ghost old_mem = *self;
        let mut x = v;
        let mut k: u64 = 0;
        proof {
            lemma_le_round_trip(v as nat, 8);
            assert(le_bytes(v as nat, 8).subrange(0, 8) =~= le_bytes(v as nat, 8));
        }
        while k < 8
            invariant
                self.wf(),
                k <= 8,
                pa + 8 <= u64::MAX,
                le_bytes(v as nat, 8).len() == 8,
                le_bytes(x as nat, (8 - k) as nat) == le_bytes(v as nat, 8).subrange(k as int, 8),
                forall|q: int| #[trigger]
                    self.byte(q) == if pa <= q < pa + k {
                        le_bytes(v as nat, 8)[q - pa]
                    } else {
                        old_mem.byte(q)
                    },
            decreases 8 - k,
        {
            let ghost tail = le_bytes(x as nat, (8 - k) as nat);
            proof {
                lemma_le_round_trip(x as nat, (8 - k) as nat);
            }
            assert(tail[0] == (x % 256) as u8);
            assert(tail.drop_first() == le_bytes((x / 256) as nat, (8 - k - 1) as nat));
            self.write_byte(pa + k, (x % 256) as u8);
            assert(le_bytes(v as nat, 8)[k as int] == tail[0]);
            assert(le_bytes(v as nat, 8).subrange(k as int + 1, 8) =~= tail.drop_first());
            x = x / 256;
            k = k + 1;
        }
    }

    /// The little-endian word in the 8 bytes from `pa`.
    pub fn read_u64(&self, pa: u64) -> (r: u64)
        requires
            self.wf(),
            pa + 8 <= u64::MAX,
        ensures
            r == le_value(self.bytes_at(pa as int, 8)),
    {
        let ghost s = self.bytes_at(pa as int, 8);
        let mut v: u64 = 0;
        let mut k: u64 = 8;
        proof {
            lemma_le_bound(s.subrange(8, 8));
        }
        while k > 0
            invariant
                self.wf(),
                pa + 8 <= u64::MAX,
                k <= 8,
                s == self.bytes_at(pa as int, 8),
                v == le_value(s.subrange(k as int, 8)),
                (v as nat) < pow256((8 - k) as nat),
            decreases k,
        {
            k = k - 1;
            let b = self.read_byte(pa + k);
            assert(b == s[k as int]);
            let ghost sub = s.subrange(k as int, 8);
            assert(sub.drop_first() =~= s.subrange(k as int + 1, 8));
            assert(sub[0] == b);
            assert(pow256((8 - k) as nat) == 256 * pow256((8 - k - 1) as nat));
            assert(pow256((8 - k) as nat) <= 0x1_0000_0000_0000_0000) by {
                lemma_pow256_mono((8 - k) as nat, 8);
                lemma_pow256_8();
            }
            assert((b as nat) + 256 * (v as nat) < pow256((8 - k) as nat)) by (nonlinear_arith)
                requires
                    (v as nat) < pow256((8 - k - 1) as nat),
                    pow256((8 - k) as nat) == 256 * pow256((8 - k - 1) as nat),
                    b < 256,
            ;
            v = b as u64 + 256 * v;
        }
        assert(s.subrange(0, 8) =~= s);
        v
    }

    /// Copies `src[start..start + len]` to the start of page `ppn`.
    pub fn copy_to_page(&mut self, ppn: u64, src: &[u8], start: usize, len: usize)
        requires
            old(self).wf(),
            ppn < 0x1000_0000_0000,
            len <= 4096,
            start + len <= src.len(),
        ensures
            final(self).wf(),
            forall|q: int| #[trigger]
                final(self).byte(q) == if ppn * 4096 <= q < ppn * 4096 + len {
                    src@[start + q - ppn * 4096]
                } else {
                    old(self).byte(q)
                },
    {
        let ghost old_mem = *self;
        let base = ppn * 4096;
        let mut k: usize = 0;
        while k < len
            invariant
                self.wf(),
                k <= len,
                base == ppn * 4096,
                len <= 4096,
                ppn < 0x1000_0000_0000,
                start + len <= src.len(),
                forall|q: int| #[trigger]
                    self.byte(q) == if base <= q < base + k {
                        src@[start + q - base]
                    } else {
                        old_mem.byte(q)
                    },
            decreases len - k,
        {
            self.write_byte(base + k as u64, src[start + k]);
            k = k + 1;
        }
    }

    /// Fills page `ppn` with zeros.
    pub fn zero_page(&mut self, ppn: u64)
        requires
            old(self).wf(),
            ppn < 0x1000_0000_0000,
        ensures
            final(self).wf(),
            forall|q: int| #[trigger]
                final(self).byte(q) == if ppn * 4096 <= q < ppn * 4096 + 4096 {
                    0
                } else {
                    old(self).byte(q)
                },
    {
        let ghost old_mem = *self;
        let base = ppn * 4096;
        let mut k: u64 = 0;
        while k < 4096
            invariant
                self.wf(),
                k <= 4096,
                base == ppn * 4096,
                ppn < 0x1000_0000_0000,
                forall|q: int| #[trigger]
                    self.byte(q) == if base <= q < base + k {
                        0
                    } else {
                        old_mem.byte(q)
                    },
            decreases 4096 - k,
        {
            self.write_byte(base + k, 0);
            k = k + 1;
        }
    }

    /// Every page written so far, as its page number and 4096 bytes: what
    /// the platform copies into RAM. Pages not listed read as zeros.
    pub fn written_pages(&self) -> (r: Vec<(u64, Vec<u8>)>)
        requires
            self.wf(),
        ensures
            forall|i: int| 0 <= i < r@.len() ==> (#[trigger] r@[i]).1@.len() == 4096,
            forall|i: int, k: int| 0 <= i < r@.len() && 0 <= k < 4096 ==> #[trigger] r@[i].1@[k] == self.byte(
                r@[i].0 * 4096 + k,
            ),
            forall|pa: int| 0 <= pa && #[trigger] self.byte(pa) != 0 ==> exists|i: int| 0 <= i < r@.len() && r@[i].0 == pa / 4096,
    {
        let mut r: Vec<(u64, Vec<u8>)> = Vec::new();
        let mut i: usize = 0;
        while i < self.pages.len()
            invariant
                self.wf(),
                i <= self.pages.len(),
                r@.len() == i,
                forall|j: int| 0 <= j < i ==> (#[trigger] r@[j]).0 == self.pages[j].ppn && r@[j].1@ == self.pages[j].bytes@,
            decreases self.pages.len() - i,
        {
            let mut copy: Vec<u8> = Vec::new();
            let mut k: usize = 0;
            while k < self.pages[i].bytes.len()
                invariant
                    k <= self.pages[i as int].bytes@.len(),
                    i < self.pages.len(),
                    copy@ == self.pages[i as int].bytes@.subrange(0, k as int),
                decreases self.pages[i as int].bytes@.len() - k,
            {
                copy.push(self.pages[i].bytes[k]);
                k = k + 1;
                assert(copy@ =~= self.pages[i as int].bytes@.subrange(0, k as int));
            }
            assert(copy@ =~= self.pages[i as int].bytes@);
            r.push((self.pages[i].ppn, copy));
            i = i + 1;
        }
        proof {
            assert forall|j: int, k: int| 0 <= j < r@.len() && 0 <= k < 4096 implies #[trigger] r@[j].1@[k] == self.byte(
                r@[j].0 * 4096 + k,
            ) by {
                let q = r@[j].0 * 4096 + k;
                assert(q / 4096 == self.pages[j].ppn as int);
                assert(q % 4096 == k);
                assert(self.has_page(q / 4096));
                let c = choose|c: int| 0 <= c < self.pages.len() && self.pages[c].ppn == q / 4096;
                assert(c == j);
            }
            assert forall|pa: int| 0 <= pa && #[trigger] self.byte(pa) != 0 implies exists|i: int|
                0 <= i < r@.len() && r@[i].0 == pa / 4096 by {
                let c = choose|c: int| 0 <= c < self.pages.len() && self.pages[c].ppn == pa / 4096;
                assert(r@[c].0 == pa / 4096);
            }
        }
        r
    }
}

} // verus!
