//! The dynamic section of a position-independent ELF: its tags, its
//! relocation table, its symbol and string tables.
use vstd::prelude::*;
use crate::physmem::{le_value, pow256, lemma_le_bound, lemma_pow256_8, lemma_pow256_mono};

verus! {

pub const DT_NULL: u64 = 0;

pub const DT_STRTAB: u64 = 5;

pub const DT_SYMTAB: u64 = 6;

pub const DT_RELA: u64 = 7;

pub const DT_RELASZ: u64 = 8;

pub const DT_RELAENT: u64 = 9;

/// Bytes in one RELA record and in one symbol.
pub const RELA_SIZE: u64 = 24;

pub const SYM_SIZE: u64 = 24;

/// The little-endian value of the `n` bytes at `off`.
pub open spec fn le_at(s: Seq<u8>, off: int, n: int) -> nat {
    le_value(s.subrange(off, off + n))
}

/// The 64-bit little-endian word at `off`.
pub open spec fn word(s: Seq<u8>, off: int) -> u64 {
    le_at(s, off, 8) as u64
}

/// Reads `n <= 8` little-endian bytes from `off`.
pub fn read_le(b: &[u8], off: usize, n: usize) -> (r: u64)
    requires
        n <= 8,
        off + n <= b.len(),
    ensures
        r == le_at(b@, off as int, n as int),
        (r as nat) < pow256(n as nat),
{
    let ghost s = b@.subrange(off as int, off + n);
    let mut v: u64 = 0;
    let mut k: usize = n;
    proof {
        lemma_le_bound(s.subrange(n as int, n as int));
    }
    while k > 0
        invariant
            k <= n <= 8,
            off + n <= b.len(),
            s == b@.subrange(off as int, off + n),
            v == le_value(s.subrange(k as int, n as int)),
            (v as nat) < pow256((n - k) as nat),
        decreases k,
    {
        k = k - 1;
        let x = b[off + k];
        let ghost sub = s.subrange(k as int, n as int);
        assert(sub.drop_first() =~= s.subrange(k as int + 1, n as int));
        assert(sub[0] == x);
        assert(pow256((n - k) as nat) == 256 * pow256((n - k - 1) as nat));
        assert(pow256((n - k) as nat) <= 0x1_0000_0000_0000_0000) by {
            lemma_pow256_mono((n - k) as nat, 8);
            lemma_pow256_8();
        }
        assert((x as nat) + 256 * (v as nat) < pow256((n - k) as nat)) by (nonlinear_arith)
            requires
                (v as nat) < pow256((n - k - 1) as nat),
                pow256((n - k) as nat) == 256 * pow256((n - k - 1) as nat),
                x < 256,
        ;
        v = x as u64 + 256 * v;
    }
    assert(s.subrange(0, n as int) =~= s);
    v
}

/// The value of the last entry with `tag` among the 16-byte `(tag, value)`
/// entries from `off` up to `end` or to the first `DT_NULL` tag.
pub open spec fn dyn_tag(elf: Seq<u8>, off: int, end: int, tag: u64) -> Option<u64>
    decreases end - off,
{
    if off < 0 || off + 16 > end {
        None
    } else if word(elf, off) == DT_NULL {
        None
    } else {
        match dyn_tag(elf, off + 16, end, tag) {
            Some(v) => Some(v),
            None => if word(elf, off) == tag {
                Some(word(elf, off + 8))
            } else {
                None
            },
        }
    }
}

/// A relocation with an addend.
#[derive(Clone, Copy, PartialEq, Eq, Structural, Debug)]
pub struct Elf64RELA {
    pub offset: u64,
    pub info: u64,
    pub addend: u64,
}

/// A relocation without an addend.
#[derive(Clone, Copy, PartialEq, Eq, Structural, Debug)]
pub struct Elf64REL {
    pub offset: u64,
    pub info: u64,
}

pub enum RelTable {
    RELA(Vec<Elf64RELA>),
    REL(Vec<Elf64REL>),
}

/// A dynamic symbol.
#[derive(Clone, Copy, PartialEq, Eq, Structural, Debug)]
pub struct Sym {
    pub name: u32,
    pub info: u8,
    pub other: u8,
    pub shndx: u16,
    pub value: u64,
    pub size: u64,
}

pub open spec fn rela_at(elf: Seq<u8>, base: int, i: int) -> Elf64RELA {
    Elf64RELA {
        offset: word(elf, base + 24 * i),
        info: word(elf, base + 24 * i + 8),
        addend: word(elf, base + 24 * i + 16),
    }
}

pub open spec fn sym_at(elf: Seq<u8>, base: int, i: int) -> Sym {
    Sym {
        name: le_at(elf, base + 24 * i, 4) as u32,
        info: elf[base + 24 * i + 4],
        other: elf[base + 24 * i + 5],
        shndx: le_at(elf, base + 24 * i + 6, 2) as u16,
        value: word(elf, base + 24 * i + 8),
        size: word(elf, base + 24 * i + 16),
    }
}

/// Why a dynamic section or a relocation could not be used.
#[derive(Clone, Copy, PartialEq, Eq, Structural, Debug)]
pub enum DynamicError {
    /// `DT_RELA` without `DT_RELASZ` or `DT_RELAENT`.
    MissingRelaSize,
    /// `DT_RELAENT` is zero.
    ZeroRelaEnt,
    /// A table lies outside the image.
    OutOfBounds,
}

/// The relocation table, the symbol table (to the end of the image) and the
/// string table (to the end of the image) that a dynamic section names.
pub struct Dynamic {
    pub rel: Option<RelTable>,
    pub dynsym: Option<Vec<Sym>>,
    pub dynstr: Option<Vec<u8>>,
}

/// The offset where a NUL-terminated string from `i` on ends.
pub open spec fn cstr_end(s: Seq<u8>, i: int) -> int
    decreases s.len() - i,
{
    if i < 0 || i >= s.len() || s[i] == 0 {
        i
    } else {
        cstr_end(s, i + 1)
    }
}

/// `d` holds the tables that the dynamic section in `elf[start..end]`
/// names, read from the image.
pub open spec fn parsed_from(d: Dynamic, elf: Seq<u8>, start: int, end: int) -> bool {
    let rela = dyn_tag(elf, start, end, DT_RELA);
    let sz = dyn_tag(elf, start, end, DT_RELASZ);
    let ent = dyn_tag(elf, start, end, DT_RELAENT);
    let sym = dyn_tag(elf, start, end, DT_SYMTAB);
    let str = dyn_tag(elf, start, end, DT_STRTAB);
    &&& (rela is None ==> d.rel is None)
    &&& (rela matches Some(a) ==> d.rel matches Some(RelTable::RELA(t))
        && t@ == Seq::new((sz.unwrap() / ent.unwrap()) as nat, |i: int| rela_at(elf, a as int, i)))
    &&& (sym is None ==> d.dynsym is None)
    &&& (sym matches Some(a) ==> d.dynsym matches Some(t)
        && t@ == Seq::new(((elf.len() - a) / 24) as nat, |i: int| sym_at(elf, a as int, i)))
    &&& (str is None ==> d.dynstr is None)
    &&& (str matches Some(a) ==> d.dynstr matches Some(t) && t@ == elf.subrange(a as int, elf.len() as int))
}

/// Reads the 64-bit little-endian word at `off`.
pub fn read_word(b: &[u8], off: usize) -> (r: u64)
    requires
        off + 8 <= b.len(),
    ensures
        r == word(b@, off as int),
{
    let r = read_le(b, off, 8);
    proof {
        lemma_pow256_8();
    }
    r
}

pub open spec fn first_some(a: Option<u64>, b: Option<u64>) -> Option<u64> {
    if a is Some {
        a
    } else {
        b
    }
}

/// Whether `count` records of 24 bytes fit in the image from `addr` on.
pub open spec fn table_fits(len: int, addr: u64, count: int) -> bool {
    addr <= len && count <= (len - addr) / 24
}

/// The first problem that parsing the dynamic section in `[start, end)`
/// meets, if any.
pub open spec fn dynamic_error(elf: Seq<u8>, start: int, end: int) -> Option<DynamicError> {
    let rela = dyn_tag(elf, start, end, DT_RELA);
    let sz = dyn_tag(elf, start, end, DT_RELASZ);
    let ent = dyn_tag(elf, start, end, DT_RELAENT);
    let sym = dyn_tag(elf, start, end, DT_SYMTAB);
    let str = dyn_tag(elf, start, end, DT_STRTAB);
    if rela is Some && (sz is None || ent is None) {
        Some(DynamicError::MissingRelaSize)
    } else if rela is Some && ent == Some(0u64) {
        Some(DynamicError::ZeroRelaEnt)
    } else if rela is Some && !table_fits(elf.len() as int, rela.unwrap(), (sz.unwrap() / ent.unwrap()) as int) {
        Some(DynamicError::OutOfBounds)
    } else if sym is Some && sym.unwrap() > elf.len() {
        Some(DynamicError::OutOfBounds)
    } else if str is Some && str.unwrap() > elf.len() {
        Some(DynamicError::OutOfBounds)
    } else {
        None
    }
}

proof fn lemma_dyn_step(elf: Seq<u8>, off: int, end: int, tag: u64, slot: Option<u64>)
    requires
        0 <= off,
        off + 16 <= end,
        word(elf, off) != DT_NULL,
    ensures
        first_some(dyn_tag(elf, off, end, tag), slot) == first_some(
            dyn_tag(elf, off + 16, end, tag),
            if word(elf, off) == tag {
                Some(word(elf, off + 8))
            } else {
                slot
            },
        ),
{
}

fn parse_rela(elf: &[u8], addr: u64, count: u64) -> (r: Vec<Elf64RELA>)
    requires
        table_fits(elf@.len() as int, addr, count as int),
    ensures
        r@ == Seq::new(count as nat, |i: int| rela_at(elf@, addr as int, i)),
{
    let len = elf.len() as u64;
    assert(addr + 24 * count <= len) by (nonlinear_arith)
        requires
            addr <= len,
            count <= (len - addr) / 24,
    ;
    let mut v: Vec<Elf64RELA> = Vec::new();
    let mut i: u64 = 0;
    let mut pos: usize = addr as usize;
    while i < count
        invariant
            addr + 24 * count <= len,
            len == elf@.len(),
            len as int == elf.len() as int,
            i <= count,
            pos == addr + 24 * i,
            v@.len() == i,
            forall|j: int| 0 <= j < i ==> v@[j] == #[trigger] rela_at(elf@, addr as int, j),
        decreases count - i,
    {
        assert(pos + 24 <= len) by (nonlinear_arith)
            requires
                pos == addr + 24 * i,
                i < count,
                addr + 24 * count <= len,
        ;
        let e = Elf64RELA {
            offset: read_word(elf, pos),
            info: read_word(elf, pos + 8),
            addend: read_word(elf, pos + 16),
        };
        v.push(e);
        pos = pos + 24;
        i = i + 1;
    }
    assert(v@ =~= Seq::new(count as nat, |i: int| rela_at(elf@, addr as int, i)));
    v
}

fn parse_syms(elf: &[u8], addr: u64) -> (r: Vec<Sym>)
    requires
        addr <= elf@.len(),
    ensures
        r@ == Seq::new(((elf@.len() - addr) / 24) as nat, |i: int| sym_at(elf@, addr as int, i)),
{
    let len = elf.len() as u64;
    let count = (len - addr) / SYM_SIZE;
    assert(addr + 24 * count <= len) by (nonlinear_arith)
        requires
            addr <= len,
            count == (len - addr) / 24,
    ;
    let mut v: Vec<Sym> = Vec::new();
    let mut i: u64 = 0;
    let mut pos: usize = addr as usize;
    while i < count
        invariant
            addr + 24 * count <= len,
            len == elf@.len(),
            len as int == elf.len() as int,
            i <= count,
            pos == addr + 24 * i,
            v@.len() == i,
            forall|j: int| 0 <= j < i ==> v@[j] == #[trigger] sym_at(elf@, addr as int, j),
        decreases count - i,
    {
        assert(pos + 24 <= len) by (nonlinear_arith)
            requires
                pos == addr + 24 * i,
                i < count,
                addr + 24 * count <= len,
        ;
        let e = Sym {
            name: read_le(elf, pos, 4) as u32,
            info: elf[pos + 4],
            other: elf[pos + 5],
            shndx: read_le(elf, pos + 6, 2) as u16,
            value: read_word(elf, pos + 8),
            size: read_word(elf, pos + 16),
        };
        v.push(e);
        pos = pos + 24;
        i = i + 1;
    }
    assert(v@ =~= Seq::new(count as nat, |i: int| sym_at(elf@, addr as int, i)));
    v
}

fn copy_from(elf: &[u8], addr: usize) -> (r: Vec<u8>)
    requires
        addr <= elf@.len(),
    ensures
        r@ == elf@.subrange(addr as int, elf@.len() as int),
{
    let mut v: Vec<u8> = Vec::new();
    let mut i: usize = addr;
    while i < elf.len()
        invariant
            addr <= i <= elf@.len(),
            v@ == elf@.subrange(addr as int, i as int),
        decreases elf@.len() - i,
    {
        v.push(elf[i]);
        i = i + 1;
        assert(v@ =~= elf@.subrange(addr as int, i as int));
    }
    v
}

/// `DT_RELA`, if present, comes with `DT_RELASZ` and `DT_RELAENT`: a
/// dynamic section without them is unusable.
pub open spec fn rela_sizes_given(elf: Seq<u8>, start: int, end: int) -> bool {
    dyn_tag(elf, start, end, DT_RELA) is Some ==> dyn_tag(elf, start, end, DT_RELASZ) is Some && dyn_tag(
        elf,
        start,
        end,
        DT_RELAENT,
    ) is Some
}

/// The values of `DT_STRTAB`, `DT_SYMTAB`, `DT_RELA`, `DT_RELASZ` and
/// `DT_RELAENT` in the dynamic section `elf[start..end]`.
fn scan_dynamic(elf: &[u8], start: usize, end: usize) -> (r: (Option<u64>, Option<u64>, Option<u64>, Option<u64>, Option<u64>))
    requires
        start <= end <= elf@.len(),
    ensures
        r.0 == dyn_tag(elf@, start as int, end as int, DT_STRTAB),
        r.1 == dyn_tag(elf@, start as int, end as int, DT_SYMTAB),
        r.2 == dyn_tag(elf@, start as int, end as int, DT_RELA),
        r.3 == dyn_tag(elf@, start as int, end as int, DT_RELASZ),
        r.4 == dyn_tag(elf@, start as int, end as int, DT_RELAENT),
{
        let ghost e = elf@;
        let ghost st = start as int;
        let ghost en = end as int;
        let mut strtab: Option<u64> = None;
        let mut symtab: Option<u64> = None;
        let mut rela: Option<u64> = None;
        let mut relasz: Option<u64> = None;
        let mut relaent: Option<u64> = None;
        let mut off = start;
        let mut done = false;
        while !done && end - off >= 16
            invariant
                start <= off <= end <= e.len(),
                en == end as int,
                st == start as int,
                done ==> off + 16 <= end && word(e, off as int) == DT_NULL,
                e == elf@,
                dyn_tag(e, st, en, DT_STRTAB) == first_some(dyn_tag(e, off as int, en, DT_STRTAB), strtab),
                dyn_tag(e, st, en, DT_SYMTAB) == first_some(dyn_tag(e, off as int, en, DT_SYMTAB), symtab),
                dyn_tag(e, st, en, DT_RELA) == first_some(dyn_tag(e, off as int, en, DT_RELA), rela),
                dyn_tag(e, st, en, DT_RELASZ) == first_some(dyn_tag(e, off as int, en, DT_RELASZ), relasz),
                dyn_tag(e, st, en, DT_RELAENT) == first_some(dyn_tag(e, off as int, en, DT_RELAENT), relaent),
            decreases end - off + if done {
                0int
            } else {
                1int
            },
        {
            let tag = read_word(elf, off);
            if tag == DT_NULL {
                done = true;
                continue;
            }
            let val = read_word(elf, off + 8);
            proof {
                lemma_dyn_step(e, off as int, en, DT_STRTAB, strtab);
                lemma_dyn_step(e, off as int, en, DT_SYMTAB, symtab);
                lemma_dyn_step(e, off as int, en, DT_RELA, rela);
                lemma_dyn_step(e, off as int, en, DT_RELASZ, relasz);
                lemma_dyn_step(e, off as int, en, DT_RELAENT, relaent);
            }
            if tag == DT_STRTAB {
                strtab = Some(val);
            } else if tag == DT_SYMTAB {
                symtab = Some(val);
            } else if tag == DT_RELA {
                rela = Some(val);
            } else if tag == DT_RELASZ {
                relasz = Some(val);
            } else if tag == DT_RELAENT {
                relaent = Some(val);
            }
            off = off + 16;
        }
        proof {
            assert(dyn_tag(e, off as int, en, DT_STRTAB) is None);
            assert(dyn_tag(e, off as int, en, DT_SYMTAB) is None);
            assert(dyn_tag(e, off as int, en, DT_RELA) is None);
            assert(dyn_tag(e, off as int, en, DT_RELASZ) is None);
            assert(dyn_tag(e, off as int, en, DT_RELAENT) is None);
        }
        (strtab, symtab, rela, relasz, relaent)
}

/// Whether the dynamic section `elf[start..end]` gives the sizes that its
/// `DT_RELA` needs; `Dynamic::parse` takes only such a section.
pub fn rela_sizes_present(elf: &[u8], start: usize, end: usize) -> (r: bool)
    requires
        start <= end <= elf@.len(),
    ensures
        r == rela_sizes_given(elf@, start as int, end as int),
{
    let (_, _, rela, relasz, relaent) = scan_dynamic(elf, start, end);
    rela.is_none() || (relasz.is_some() && relaent.is_some())
}

impl Dynamic {
    /// Reads the dynamic section in `elf[start..end]`: the tags up to
    /// `DT_NULL` (later entries win), then the tables they point to.
    pub fn parse(elf: &[u8], start: usize, end: usize) -> (r: Result<Dynamic, DynamicError>)
        requires
            start <= end <= elf@.len(),
            rela_sizes_given(elf@, start as int, end as int),
        ensures
            (r matches Err(e) ==> dynamic_error(elf@, start as int, end as int) == Some(e)),
            (r is Ok <==> dynamic_error(elf@, start as int, end as int) is None),
            (r matches Ok(d) ==> parsed_from(d, elf@, start as int, end as int)),
    {
        let (strtab, symtab, rela, relasz, relaent) = scan_dynamic(elf, start, end);
        let len = elf.len() as u64;
        let rel = match rela {
            None => None,
            Some(addr) => {
                let (sz, ent) = match (relasz, relaent) {
                    (Some(sz), Some(ent)) => (sz, ent),
                    _ => {
                        return Err(DynamicError::MissingRelaSize);
                    },
                };
                if ent == 0 {
                    return Err(DynamicError::ZeroRelaEnt);
                }
                let count = sz / ent;
                if addr > len || count > (len - addr) / RELA_SIZE {
                    return Err(DynamicError::OutOfBounds);
                }
                Some(RelTable::RELA(parse_rela(elf, addr, count)))
            },
        };
        let dynsym = match symtab {
            None => None,
            Some(addr) => {
                if addr > len {
                    return Err(DynamicError::OutOfBounds);
                }
                Some(parse_syms(elf, addr))
            },
        };
        let dynstr = match strtab {
            None => None,
            Some(addr) => {
                if addr > len {
                    return Err(DynamicError::OutOfBounds);
                }
                Some(copy_from(elf, addr as usize))
            },
        };
        Ok(Dynamic { rel, dynsym, dynstr })
    }

    /// The symbol at `idx` and its NUL-terminated name, if both tables are
    /// there and hold them.
    pub open spec fn sym_name(&self, idx: int) -> Option<(Sym, Seq<u8>)> {
        match (self.dynsym, self.dynstr) {
            (Some(syms), Some(strs)) => {
                if 0 <= idx < syms@.len() && syms@[idx].name <= strs@.len() {
                    let s = syms@[idx];
                    Some((s, strs@.subrange(s.name as int, cstr_end(strs@, s.name as int))))
                } else {
                    None
                }
            },
            _ => None,
        }
    }

    /// Looks up symbol `idx` and its name in the string table.
    pub fn resolve_sym(&self, idx: u64) -> (r: Option<(Sym, Vec<u8>)>)
        ensures
            (r is None <==> self.sym_name(idx as int) is None),
            (r matches Some((s, n)) ==> self.sym_name(idx as int) == Some((s, n@))),
    {
        let syms = match &self.dynsym {
            Some(v) => v,
            None => {
                return None;
            },
        };
        let strs = match &self.dynstr {
            Some(v) => v,
            None => {
                return None;
            },
        };
        if idx >= syms.len() as u64 {
            return None;
        }
        let sym = syms[idx as usize];
        if sym.name as usize > strs.len() {
            return None;
        }
        let mut i: usize = sym.name as usize;
        let mut name: Vec<u8> = Vec::new();
        while i < strs.len() && strs[i] != 0
            invariant
                sym.name <= i <= strs@.len(),
                name@ == strs@.subrange(sym.name as int, i as int),
                cstr_end(strs@, sym.name as int) == cstr_end(strs@, i as int),
            decreases strs@.len() - i,
        {
            name.push(strs[i]);
            i = i + 1;
            assert(name@ =~= strs@.subrange(sym.name as int, i as int));
        }
        Some((sym, name))
    }
}

} // verus!
