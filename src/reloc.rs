//! The relocation pass of the loader: `RELATIVE` and `JUMP_SLOT` entries
//! written through a process's page table into physical memory.
use vstd::prelude::*;
use crate::addr::VirtAddr;
use crate::consts::VDSO_RESIDE;
use crate::elf::{Dynamic, Elf64RELA, RelTable};
use crate::paging::{PTE, PageTable, pte_ppn};
use crate::physmem::{PhysMem, le_bytes, le_value, lemma_u64_round_trip};

verus! {

pub const R_RELATIVE: u64 = 3;

pub const R_JUMP_SLOT: u64 = 5;

/// A kernel function that user code may link against by name; it lives in
/// the vDSO text.
pub struct ExportedMethod {
    pub name: Vec<u8>,
    pub addr: u64,
}

pub open spec fn exports_view(e: Seq<ExportedMethod>) -> Seq<(Seq<u8>, u64)> {
    e.map_values(|m: ExportedMethod| (m.name@, m.addr))
}

/// The address of the last export called `name`.
pub open spec fn export_addr(e: Seq<(Seq<u8>, u64)>, name: Seq<u8>) -> Option<u64>
    decreases e.len(),
{
    if e.len() == 0 {
        None
    } else if e.last().0 == name {
        Some(e.last().1)
    } else {
        export_addr(e.drop_last(), name)
    }
}

/// Every export lies in the vDSO text `[start, end)`, which user space sees
/// from `VDSO_RESIDE` on.
pub open spec fn exports_wf(e: Seq<(Seq<u8>, u64)>, start: u64, end: u64) -> bool {
    &&& start <= end
    &&& end - start <= 0x1000_0000
    &&& forall|i: int| 0 <= i < e.len() ==> start <= (#[trigger] e[i]).1 < end
}

/// The physical address of user address `va`, if its page is mapped.
pub open spec fn va_to_pa(m: Map<int, PTE>, va: u64) -> Option<int> {
    if va < 0x80_0000_0000 && m.contains_key(va as int / 4096) {
        Some(pte_ppn(m[va as int / 4096].bits) * 4096 + va as int % 4096)
    } else {
        None
    }
}

/// Why a relocation entry could not be applied.
#[derive(Clone, Copy, PartialEq, Eq, Structural, Debug)]
pub enum RelocError {
    /// A relocation type other than `RELATIVE` and `JUMP_SLOT`.
    Unsupported(u64),
    /// The slot's address is not mapped.
    Unmapped(u64),
    /// The symbol index or its name is outside the tables.
    BadSymbol(u64),
    /// The image has a `REL` table, which is not implemented.
    RelTable,
}

/// What entry `e` writes: nothing, or a word at a physical address.
pub open spec fn reloc_effect(
    e: Elf64RELA,
    m: Map<int, PTE>,
    d: Dynamic,
    ex: Seq<(Seq<u8>, u64)>,
    vdso_start: u64,
) -> Result<Option<(int, u64)>, RelocError> {
    let ty = e.info % 0x1_0000_0000;
    if ty == R_RELATIVE {
        match va_to_pa(m, e.offset) {
            None => Err(RelocError::Unmapped(e.offset)),
            Some(pa) => Ok(Some((pa, e.addend))),
        }
    } else if ty == R_JUMP_SLOT {
        match d.sym_name(e.info as int / 0x1_0000_0000) {
            None => Err(RelocError::BadSymbol(e.info / 0x1_0000_0000)),
            Some((_, name)) => match export_addr(ex, name) {
                None => Ok(None),
                Some(a) => match va_to_pa(m, e.offset) {
                    None => Err(RelocError::Unmapped(e.offset)),
                    Some(pa) => Ok(Some((pa, (VDSO_RESIDE + (a - vdso_start)) as u64))),
                },
            },
        }
    } else {
        Err(RelocError::Unsupported(ty))
    }
}

/// Entry `e` can be applied in an address space whose mapped pages are
/// those that `dom` holds: a `RELATIVE` slot is mapped; a `JUMP_SLOT`'s
/// symbol resolves and, when it names an export, its slot is mapped.
pub open spec fn reloc_ok_in(e: Elf64RELA, dom: Set<int>, d: Dynamic, ex: Seq<(Seq<u8>, u64)>) -> bool {
    let ty = e.info % 0x1_0000_0000;
    let mapped = e.offset < 0x80_0000_0000 && dom.contains(e.offset as int / 4096);
    if ty == R_RELATIVE {
        mapped
    } else if ty == R_JUMP_SLOT {
        match d.sym_name(e.info as int / 0x1_0000_0000) {
            None => false,
            Some((_, name)) => export_addr(ex, name) is None || mapped,
        }
    } else {
        false
    }
}

/// Whether an entry applies depends on which pages are mapped, not on
/// where they are.
pub proof fn lemma_reloc_ok_in(e: Elf64RELA, m: Map<int, PTE>, dom: Set<int>, d: Dynamic, ex: Seq<(Seq<u8>, u64)>, vdso_start: u64)
    requires
        forall|v: int| #[trigger] m.contains_key(v) == dom.contains(v),
    ensures
        (reloc_effect(e, m, d, ex, vdso_start) is Ok) == reloc_ok_in(e, dom, d, ex),
{
    assert(m.contains_key(e.offset as int / 4096) == dom.contains(e.offset as int / 4096));
}

/// The byte at `q` after the words `ws` were written, in order, over `m`.
pub open spec fn after_writes(ws: Seq<Option<(int, u64)>>, m: PhysMem, q: int) -> u8
    decreases ws.len(),
{
    if ws.len() == 0 {
        m.byte(q)
    } else {
        match ws.last() {
            Some((pa, v)) => if pa <= q < pa + 8 {
                le_bytes(v as nat, 8)[q - pa]
            } else {
                after_writes(ws.drop_last(), m, q)
            },
            None => after_writes(ws.drop_last(), m, q),
        }
    }
}

/// A word written by a single relocation reads back as that word.
pub proof fn lemma_relocated_word(m: PhysMem, pa: int, v: u64)
    ensures
        le_value(Seq::new(8, |k: int| after_writes(seq![Some((pa, v))], m, pa + k))) == v,
{
    lemma_u64_round_trip(v);
    let s = Seq::new(8, |k: int| after_writes(seq![Some((pa, v))], m, pa + k));
    assert(s =~= le_bytes(v as nat, 8));
}

fn bytes_eq(a: &Vec<u8>, b: &Vec<u8>) -> (r: bool)
    ensures
        r == (a@ == b@),
{
    if a.len() != b.len() {
        return false;
    }
    let mut i: usize = 0;
    while i < a.len()
        invariant
            a@.len() == b@.len(),
            i <= a@.len(),
            forall|k: int| 0 <= k < i ==> a@[k] == b@[k],
        decreases a@.len() - i,
    {
        if a[i] != b[i] {
            return false;
        }
        i = i + 1;
    }
    assert(a@ =~= b@);
    true
}

fn find_export(exports: &Vec<ExportedMethod>, name: &Vec<u8>) -> (r: Option<u64>)
    ensures
        r == export_addr(exports_view(exports@), name@),
{
    let ghost ev = exports_view(exports@);
    let mut found: Option<u64> = None;
    let mut i: usize = 0;
    while i < exports.len()
        invariant
            i <= exports@.len(),
            ev == exports_view(exports@),
            found == export_addr(ev.subrange(0, i as int), name@),
        decreases exports@.len() - i,
    {
        if bytes_eq(&exports[i].name, name) {
            found = Some(exports[i].addr);
        }
        proof {
            let sub = ev.subrange(0, i + 1);
            assert(sub.drop_last() =~= ev.subrange(0, i as int));
        }
        i = i + 1;
    }
    assert(ev.subrange(0, exports@.len() as int) =~= ev);
    found
}

fn translate_slot(table: &PageTable, va: u64) -> (r: Option<u64>)
    requires
        table.wf(),
    ensures
        (r is None <==> va_to_pa(table.mapping(), va) is None),
        (r matches Some(pa) ==> va_to_pa(table.mapping(), va) == Some(pa as int) && pa < 0x100_0000_0000_0000),
{
    if va >= 0x80_0000_0000 {
        return None;
    }
    match table.translate_addr(VirtAddr(va)) {
        None => None,
        Some(pa) => {
            proof {
                let bits = table.mapping()[va as int / 4096].bits;
                assert((bits >> 10) & 0xfff_ffff_ffff < 0x1000_0000_0000) by (bit_vector);
            }
            Some(pa.0)
        },
    }
}

/// Applies one relocation entry.
pub fn relocate_one(
    table: &PageTable,
    mem: &mut PhysMem,
    e: &Elf64RELA,
    d: &Dynamic,
    exports: &Vec<ExportedMethod>,
    vdso_start: u64,
    vdso_end: u64,
) -> (r: Result<(), RelocError>)
    requires
        table.wf(),
        old(mem).wf(),
        exports_wf(exports_view(exports@), vdso_start, vdso_end),
    ensures
        final(mem).wf(),
        (match reloc_effect(*e, table.mapping(), *d, exports_view(exports@), vdso_start) {
            Err(err) => r == Err::<(), RelocError>(err) && *final(mem) == *old(mem),
            Ok(None) => r is Ok && *final(mem) == *old(mem),
            Ok(Some((pa, v))) => r is Ok && forall|q: int| #[trigger] final(mem).byte(q) == if pa <= q < pa + 8 {
                le_bytes(v as nat, 8)[q - pa]
            } else {
                old(mem).byte(q)
            },
        }),
{
    let ty = e.info & 0xffff_ffff;
    let info = e.info;
    assert(info & 0xffff_ffff == info % 0x1_0000_0000) by (bit_vector);
    if ty == R_RELATIVE {
        match translate_slot(table, e.offset) {
            None => Err(RelocError::Unmapped(e.offset)),
            Some(pa) => {
                mem.write_u64(pa, e.addend);
                Ok(())
            },
        }
    } else if ty == R_JUMP_SLOT {
        let idx = e.info >> 32;
        assert(info >> 32 == info / 0x1_0000_0000) by (bit_vector);
        let (_, name) = match d.resolve_sym(idx) {
            None => {
                return Err(RelocError::BadSymbol(idx));
            },
            Some(found) => found,
        };
        match find_export(exports, &name) {
            None => Ok(()),
            Some(a) => {
                proof {
                    let ev = exports_view(exports@);
                    lemma_export_in(ev, name@);
                }
                let target = VDSO_RESIDE + (a - vdso_start);
                match translate_slot(table, e.offset) {
                    None => Err(RelocError::Unmapped(e.offset)),
                    Some(pa) => {
                        mem.write_u64(pa, target);
                        Ok(())
                    },
                }
            },
        }
    } else {
        Err(RelocError::Unsupported(ty))
    }
}

proof fn lemma_export_in(e: Seq<(Seq<u8>, u64)>, name: Seq<u8>)
    ensures
        export_addr(e, name) matches Some(a) ==> exists|i: int| 0 <= i < e.len() && e[i].1 == a,
    decreases e.len(),
{
    if e.len() > 0 && e.last().0 != name {
        lemma_export_in(e.drop_last(), name);
        if export_addr(e, name) is Some {
            let i = choose|i: int| 0 <= i < e.drop_last().len() && e.drop_last()[i].1 == export_addr(e, name).unwrap();
            assert(e[i] == e.drop_last()[i]);
        }
    } else if e.len() > 0 {
        assert(e[e.len() - 1] == e.last());
    }
}

/// What each entry of `t` writes; an entry that fails writes nothing.
pub open spec fn reloc_writes(
    t: Seq<Elf64RELA>,
    m: Map<int, PTE>,
    d: Dynamic,
    ex: Seq<(Seq<u8>, u64)>,
    vdso_start: u64,
) -> Seq<Option<(int, u64)>> {
    Seq::new(
        t.len(),
        |j: int|
            match reloc_effect(t[j], m, d, ex, vdso_start) {
                Ok(w) => w,
                Err(_) => None,
            },
    )
}

/// Applies every entry of the `RELA` table of `d`, in order; stops at the
/// first entry that cannot be applied.
pub fn apply_relocations(
    table: &PageTable,
    mem: &mut PhysMem,
    d: &Dynamic,
    exports: &Vec<ExportedMethod>,
    vdso_start: u64,
    vdso_end: u64,
) -> (r: Result<(), RelocError>)
    requires
        table.wf(),
        old(mem).wf(),
        exports_wf(exports_view(exports@), vdso_start, vdso_end),
    ensures
        final(mem).wf(),
        (d.rel is None ==> r is Ok && *final(mem) == *old(mem)),
        (d.rel matches Some(RelTable::REL(_)) ==> r == Err::<(), RelocError>(RelocError::RelTable) && *final(mem) == *old(mem)),
        (d.rel matches Some(RelTable::RELA(t)) ==> {
            let fx = |e: Elf64RELA| reloc_effect(e, table.mapping(), *d, exports_view(exports@), vdso_start);
            &&& (r is Ok <==> forall|j: int| 0 <= j < t@.len() ==> fx(#[trigger] t@[j]) is Ok)
            &&& (r matches Err(err) ==> exists|i: int| 0 <= i < t@.len() && fx(t@[i]) == Err::<Option<(int, u64)>, RelocError>(err)
                && forall|j: int| 0 <= j < i ==> fx(#[trigger] t@[j]) is Ok)
            &&& (r is Ok ==> forall|q: int| #[trigger] final(mem).byte(q) == after_writes(
                reloc_writes(t@, table.mapping(), *d, exports_view(exports@), vdso_start),
                *old(mem),
                q,
            ))
        }),
{
    let t = match &d.rel {
        None => {
            return Ok(());
        },
        Some(RelTable::REL(_)) => {
            return Err(RelocError::RelTable);
        },
        Some(RelTable::RELA(t)) => t,
    };
    let ghost m0 = *mem;
    let ghost ex = exports_view(exports@);
    let ghost ws = reloc_writes(t@, table.mapping(), *d, ex, vdso_start);
    let mut i: usize = 0;
    assert forall|q: int| #[trigger] mem.byte(q) == after_writes(ws.take(0), m0, q) by {
        assert(ws.take(0).len() == 0);
    }
    while i < t.len()
        invariant
            table.wf(),
            mem.wf(),
            exports_wf(ex, vdso_start, vdso_end),
            ex == exports_view(exports@),
            d.rel == Some(RelTable::RELA(*t)),
            ws == reloc_writes(t@, table.mapping(), *d, ex, vdso_start),
            i <= t@.len(),
            forall|j: int| 0 <= j < i ==> reloc_effect(#[trigger] t@[j], table.mapping(), *d, ex, vdso_start) is Ok,
            forall|q: int| #[trigger] mem.byte(q) == after_writes(ws.take(i as int), m0, q),
        decreases t@.len() - i,
    {
        let ghost mb = *mem;
        let r = relocate_one(table, mem, &t[i], d, exports, vdso_start, vdso_end);
        if r.is_err() {
            return r;
        }
        proof {
            let w = ws.take(i + 1);
            assert(w.drop_last() =~= ws.take(i as int));
            assert(w.last() == ws[i as int]);
            assert forall|q: int| #[trigger] mem.byte(q) == after_writes(w, m0, q) by {
                assert(mb.byte(q) == after_writes(ws.take(i as int), m0, q));
            }
        }
        i = i + 1;
    }
    proof {
        assert(ws.take(t@.len() as int) =~= ws);
    }
    Ok(())
}

/// Write `j` of `ws` is not overwritten, even in part, by a later one.
pub open spec fn last_writer(ws: Seq<Option<(int, u64)>>, j: int) -> bool {
    &&& 0 <= j < ws.len()
    &&& ws[j] is Some
    &&& forall|k: int| j < k < ws.len() ==> match #[trigger] ws[k] {
        Some((pb, _)) => pb + 8 <= ws[j].unwrap().0 || ws[j].unwrap().0 + 8 <= pb,
        None => true,
    }
}

/// A write that no later one overwrites decides its bytes.
pub proof fn lemma_last_writer(ws: Seq<Option<(int, u64)>>, m: PhysMem, j: int, q: int)
    requires
        last_writer(ws, j),
        ws[j].unwrap().0 <= q < ws[j].unwrap().0 + 8,
    ensures
        after_writes(ws, m, q) == le_bytes(ws[j].unwrap().1 as nat, 8)[q - ws[j].unwrap().0],
    decreases ws.len(),
{
    if j < ws.len() - 1 {
        let w = ws.drop_last();
        assert(w[j] == ws[j]);
        assert forall|k: int| j < k < w.len() implies match #[trigger] w[k] {
            Some((pb, _)) => pb + 8 <= w[j].unwrap().0 || w[j].unwrap().0 + 8 <= pb,
            None => true,
        } by {
            assert(w[k] == ws[k]);
        }
        let last = ws[ws.len() - 1];
        assert(last == ws.last());
        lemma_last_writer(w, m, j, q);
    }
}

/// The words that the relocations of `d` left, read back through memory
/// `mem`, for each entry that no later entry overwrites.
pub open spec fn slots_hold(d: Dynamic, m: Map<int, PTE>, mem: PhysMem, ex: Seq<(Seq<u8>, u64)>, vdso_start: u64) -> bool {
    d.rel matches Some(RelTable::RELA(t)) ==> forall|j: int| #[trigger]
        last_writer(reloc_writes(t@, m, d, ex, vdso_start), j) ==> le_value(
            mem.bytes_at(reloc_writes(t@, m, d, ex, vdso_start)[j].unwrap().0, 8),
        ) == reloc_writes(t@, m, d, ex, vdso_start)[j].unwrap().1
}

pub open spec fn write_covers(w: Option<(int, u64)>, q: int) -> bool {
    match w {
        Some((pa, _)) => pa <= q < pa + 8,
        None => false,
    }
}

/// Some write of `ws` covers byte `q`.
pub open spec fn covers(ws: Seq<Option<(int, u64)>>, q: int) -> bool {
    exists|j: int| 0 <= j < ws.len() && #[trigger] write_covers(ws[j], q)
}

/// The relocations of `d` write byte `q`.
pub open spec fn reloc_covers(d: Dynamic, m: Map<int, PTE>, ex: Seq<(Seq<u8>, u64)>, vdso_start: u64, q: int) -> bool {
    d.rel matches Some(RelTable::RELA(t)) && covers(reloc_writes(t@, m, d, ex, vdso_start), q)
}

/// A byte that no write covers keeps its value.
pub proof fn lemma_uncovered(ws: Seq<Option<(int, u64)>>, m: PhysMem, q: int)
    requires
        !covers(ws, q),
    ensures
        after_writes(ws, m, q) == m.byte(q),
    decreases ws.len(),
{
    if ws.len() > 0 {
        let w = ws.drop_last();
        assert(!covers(w, q)) by {
            if covers(w, q) {
                let j = choose|j: int| 0 <= j < w.len() && #[trigger] write_covers(w[j], q);
                assert(ws[j] == w[j]);
            }
        }
        assert(ws[ws.len() - 1] == ws.last());
        assert(!write_covers(ws[ws.len() - 1], q));
        lemma_uncovered(w, m, q);
    }
}

} // verus!
