//! The relocation engine: parses RELA and symbol tables out of image bytes
//! and patches the loaded image. Relative relocations are fixed up from the
//! load base and the addend alone; symbolic and jump-slot relocations
//! resolve by name, first against a designated cross-image binding (for a
//! companion image), then against the symbol's own definition, and last
//! against the ABI registry. Unknown relocation kinds are skipped by
//! policy; an unresolved needed symbol is fatal.

use vstd::prelude::*;
use crate::abi::{AbiEntry, AbiRegistry, bytes_eq, spec_lookup};
use crate::bytes::{le32_at, le64_at, read_u32_at, read_u64_at};
use crate::elf::{ElfInfo, LoadError, find_seg, image_u64_at, same_shape};

verus! {

/// Size of one ELF64 RELA entry.
pub const RELA_ENTRY_LEN: usize = 24;

/// Size of one ELF64 symbol-table entry.
pub const SYM_ENTRY_LEN: usize = 24;

/// Relative relocation: fixed up from load bias plus addend.
pub const R_RISCV_RELATIVE: u32 = 3;

/// Symbolic 64-bit absolute relocation.
pub const R_RISCV_64: u32 = 2;

/// Jump-slot relocation binding a call stub to a resolved address.
pub const R_RISCV_JUMP_SLOT: u32 = 5;

/// One parsed RELA entry.
#[derive(Clone, Copy, Debug, PartialEq, Eq, Structural)]
pub struct Rela {
    pub offset: u64,
    pub rtype: u32,
    pub sym: u32,
    pub addend: u64,
}

/// One parsed symbol: its name bytes and its defined value (zero when
/// undefined).
pub struct SymEntry {
    pub name: Vec<u8>,
    pub value: u64,
}

/// The RELA entry sitting at byte offset `off`: offset word, info word
/// (symbol index above, kind below), addend word.
pub open spec fn spec_rela(s: Seq<u8>, off: int) -> Rela {
    Rela {
        offset: le64_at(s, off) as u64,
        rtype: (le64_at(s, off + 8) % 0x1_0000_0000) as u32,
        sym: (le64_at(s, off + 8) / 0x1_0000_0000) as u32,
        addend: le64_at(s, off + 16) as u64,
    }
}

/// Parses `count` RELA entries sitting at byte offset `off` of `b`.
#[verifier::loop_isolation(false)]
pub fn parse_rela_table(b: &[u8], off: usize, count: usize) -> (r: Result<Vec<Rela>, LoadError>)
    ensures
        ({
            if off + count * (RELA_ENTRY_LEN as int) > b@.len() {
                r == Err::<Vec<Rela>, LoadError>(LoadError::TruncatedRelocations)
            } else {
                r matches Ok(v) && v@.len() == count && forall|k: int|
                    0 <= k < count ==> v@[k] == spec_rela(b@, off + k * (RELA_ENTRY_LEN as int))
            }
        }),
{
    let b_len = b.len();
    if (off as u128) + (count as u128) * 24 > (b_len as u128) {
        return Err(LoadError::TruncatedRelocations);
    }
    let mut v: Vec<Rela> = Vec::new();
    let mut i: usize = 0;
    while i < count
        invariant
            i <= count,
            v@.len() == i,
            forall|k: int| 0 <= k < i ==> v@[k] == spec_rela(b@, off + k * (RELA_ENTRY_LEN as int)),
        decreases count - i,
    {
        proof {
            assert((i as int) * (RELA_ENTRY_LEN as int) + RELA_ENTRY_LEN <= (count as int) * (
            RELA_ENTRY_LEN as int)) by (nonlinear_arith)
                requires
                    i < count,
            ;
        }
        let base = off + i * RELA_ENTRY_LEN;
        let roff = read_u64_at(b, base);
        let info = read_u64_at(b, base + 8);
        let addend = read_u64_at(b, base + 16);
        let rtype = (info & 0xffff_ffff) as u32;
        let sym = (info >> 32) as u32;
        proof {
            assert(info & 0xffff_ffff == info % 0x1_0000_0000 && (info >> 32) == info
                / 0x1_0000_0000 && info / 0x1_0000_0000 < 0x1_0000_0000) by (bit_vector);
        }
        let e = Rela { offset: roff, rtype, sym, addend };
        proof {
            assert(e == spec_rela(b@, off + (i as int) * (RELA_ENTRY_LEN as int)));
        }
        v.push(e);
        i = i + 1;
    }
    Ok(v)
}

/// The index of the first zero byte of `s` at or after `off` (the length of
/// `s` when none follows).
pub open spec fn cstr_end(s: Seq<u8>, off: int) -> int
    decreases s.len() - off,
{
    if !(0 <= off < s.len()) {
        s.len() as int
    } else if s[off] == 0 {
        off
    } else {
        cstr_end(s, off + 1)
    }
}

/// A zero-terminated name starts at `off` inside the string table.
pub open spec fn name_ok(strtab: Seq<u8>, off: int) -> bool {
    0 <= off <= strtab.len() && cstr_end(strtab, off) < strtab.len()
}

/// The name bytes at `off`: everything before the terminator.
pub open spec fn spec_name(strtab: Seq<u8>, off: int) -> Seq<u8> {
    strtab.subrange(off, cstr_end(strtab, off))
}

/// The first zero at or after `off` sits no earlier than `off`.
pub proof fn lemma_cstr_end_bounds(s: Seq<u8>, off: int)
    requires
        0 <= off <= s.len(),
    ensures
        off <= cstr_end(s, off) <= s.len(),
    decreases s.len() - off,
{
    if off < s.len() && s[off] != 0 {
        lemma_cstr_end_bounds(s, off + 1);
    }
}

/// Reads the zero-terminated name at `off` of the string table, if one is
/// there.
#[verifier::loop_isolation(false)]
pub fn read_name(strtab: &[u8], off: usize) -> (r: Option<Vec<u8>>)
    ensures
        ({
            if off <= strtab@.len() && name_ok(strtab@, off as int) {
                r matches Some(v) && v@ == spec_name(strtab@, off as int)
            } else {
                r is None
            }
        }),
{
    let n = strtab.len();
    if off > n {
        return None;
    }
    let mut v: Vec<u8> = Vec::new();
    let mut j: usize = off;
    proof {
        lemma_cstr_end_bounds(strtab@, off as int);
    }
    while j < n
        invariant
            off <= j <= n,
            cstr_end(strtab@, off as int) == cstr_end(strtab@, j as int),
            v@ =~= strtab@.subrange(off as int, j as int),
        decreases n - j,
    {
        let c = strtab[j];
        if c == 0 {
            proof {
                assert(cstr_end(strtab@, j as int) == j);
                assert(v@ =~= spec_name(strtab@, off as int));
            }
            return Some(v);
        }
        v.push(c);
        j = j + 1;
        proof {
            assert(v@ =~= strtab@.subrange(off as int, j as int));
        }
    }
    proof {
        assert(cstr_end(strtab@, n as int) == n);
        assert(!name_ok(strtab@, off as int));
    }
    None
}

/// The name offset of symbol `i` of the symbol table.
pub open spec fn sym_name_off(symtab: Seq<u8>, i: int) -> int {
    le32_at(symtab, i * (SYM_ENTRY_LEN as int))
}

/// The defined value of symbol `i` of the symbol table.
pub open spec fn sym_value_at(symtab: Seq<u8>, i: int) -> u64 {
    le64_at(symtab, i * (SYM_ENTRY_LEN as int) + 8) as u64
}

/// Every one of `count` symbols fits in the table and carries a terminated
/// name.
pub open spec fn syms_ok(symtab: Seq<u8>, strtab: Seq<u8>, count: int) -> bool {
    &&& count * (SYM_ENTRY_LEN as int) <= symtab.len()
    &&& forall|i: int| 0 <= i < count ==> name_ok(strtab, #[trigger] sym_name_off(symtab, i))
}

/// Parses `count` symbols: name offsets resolved through the string table,
/// values taken as they stand. A table or name that runs out of bytes is a
/// typed error.
#[verifier::loop_isolation(false)]
pub fn parse_symbols(symtab: &[u8], count: usize, strtab: &[u8]) -> (r: Result<
    Vec<SymEntry>,
    LoadError,
>)
    ensures
        ({
            if syms_ok(symtab@, strtab@, count as int) {
                r matches Ok(v) && v@.len() == count && forall|i: int|
                    0 <= i < count ==> (#[trigger] v@[i]).name@ == spec_name(
                        strtab@,
                        sym_name_off(symtab@, i),
                    ) && v@[i].value == sym_value_at(symtab@, i)
            } else {
                r == Err::<Vec<SymEntry>, LoadError>(LoadError::TruncatedSymbols)
            }
        }),
{
    let sym_len = symtab.len();
    if (count as u128) * 24 > (sym_len as u128) {
        return Err(LoadError::TruncatedSymbols);
    }
    let mut v: Vec<SymEntry> = Vec::new();
    let mut i: usize = 0;
    while i < count
        invariant
            i <= count,
            v@.len() == i,
            forall|k: int|
                0 <= k < i ==> (#[trigger] v@[k]).name@ == spec_name(
                    strtab@,
                    sym_name_off(symtab@, k),
                ) && v@[k].value == sym_value_at(symtab@, k),
            forall|k: int| 0 <= k < i ==> name_ok(strtab@, #[trigger] sym_name_off(symtab@, k)),
        decreases count - i,
    {
        proof {
            assert((i as int) * (SYM_ENTRY_LEN as int) + SYM_ENTRY_LEN <= (count as int) * (
            SYM_ENTRY_LEN as int)) by (nonlinear_arith)
                requires
                    i < count,
            ;
        }
        let base = i * SYM_ENTRY_LEN;
        let noff = read_u32_at(symtab, base);
        let value = read_u64_at(symtab, base + 8);
        if (noff as u128) > (strtab.len() as u128) {
            proof {
                assert(!name_ok(strtab@, sym_name_off(symtab@, i as int)));
            }
            return Err(LoadError::TruncatedSymbols);
        }
        let name = match read_name(strtab, noff as usize) {
            Some(name) => name,
            None => {
                proof {
                    assert(!name_ok(strtab@, sym_name_off(symtab@, i as int)));
                }
                return Err(LoadError::TruncatedSymbols);
            },
        };
        v.push(SymEntry { name, value });
        i = i + 1;
    }
    Ok(v)
}

/// A designated entry symbol of a companion image: a jump slot naming it
/// binds across images instead of through the ABI registry.
pub struct CrossBinding {
    pub name: Vec<u8>,
    pub addr: usize,
}

/// What a symbolic or jump-slot relocation resolves to: the cross-image
/// binding when the name is the designated entry symbol, else the symbol's
/// own definition displaced by the base, else the registry's address for
/// the name; nothing when all three miss.
pub open spec fn spec_resolve(
    reg: Seq<AbiEntry>,
    cross: Option<CrossBinding>,
    rtype: u32,
    name: Seq<u8>,
    stv: u64,
    base: int,
) -> Option<int> {
    if rtype == R_RISCV_JUMP_SLOT && (cross matches Some(c) && c.name@ == name) {
        Some((cross->Some_0).addr as int)
    } else if stv != 0 {
        Some((base + stv) % 0x1_0000_0000_0000_0000)
    } else {
        match spec_lookup(reg, name) {
            Some(a) => Some(a as int),
            None => None,
        }
    }
}

/// The image is unchanged.
pub open spec fn unchanged_info(pre: ElfInfo, post: ElfInfo) -> bool {
    post.base == pre.base && post.entry == pre.entry && post.segments@ == pre.segments@
}

/// `post` is `pre` with the word at `va` overwritten by `v`: the owning
/// segment keeps its place, size and other bytes, every other segment and
/// field is untouched, and the word reads back as `v`.
pub open spec fn word_written(pre: ElfInfo, post: ElfInfo, va: int, v: int) -> bool {
    &&& post.base == pre.base
    &&& post.entry == pre.entry
    &&& post.segments@.len() == pre.segments@.len()
    &&& find_seg(pre.segments@, va, 8) matches Some(j) && {
        let oldseg = pre.segments@[j];
        let newseg = post.segments@[j];
        let off = va - oldseg.vaddr;
        &&& forall|k: int|
            0 <= k < pre.segments@.len() && k != j ==> #[trigger] post.segments@[k]
                == pre.segments@[k]
        &&& newseg.vaddr == oldseg.vaddr
        &&& newseg.flags == oldseg.flags
        &&& newseg.data@.len() == oldseg.data@.len()
        &&& forall|b: int|
            0 <= b < oldseg.data@.len() && !(off <= b < off + 8) ==> #[trigger] newseg.data@[b]
                == oldseg.data@[b]
        &&& le64_at(newseg.data@, off) == v
        &&& image_u64_at(post, va) == v
    }
}

/// The outcome of patching the word at `va` with `v`: out of every segment
/// is a typed fault with nothing changed; inside one, the write lands.
pub open spec fn spec_write_result(
    pre: ElfInfo,
    post: ElfInfo,
    rr: Result<RelocOutcome, LoadError>,
    va: int,
    v: int,
) -> bool {
    if va > usize::MAX - 8 || find_seg(pre.segments@, va, 8) is None {
        rr == Err::<RelocOutcome, LoadError>(LoadError::RelocationOutOfBounds) && unchanged_info(
            pre,
            post,
        )
    } else {
        rr == Ok::<RelocOutcome, LoadError>(RelocOutcome::Applied) && word_written(pre, post, va, v)
    }
}

/// How one relocation ended: applied, or skipped as an unknown kind.
#[derive(Clone, Copy, Debug, PartialEq, Eq, Structural)]
pub enum RelocOutcome {
    /// The slot was patched.
    Applied,
    /// The kind is unknown; by policy the entry is skipped, not fatal.
    Skipped,
}

/// Applies one relocation entry to the image.
pub fn apply_rela(
    info: &mut ElfInfo,
    reg: &AbiRegistry,
    syms: &Vec<SymEntry>,
    cross: &Option<CrossBinding>,
    r: &Rela,
) -> (rr: Result<RelocOutcome, LoadError>)
    ensures
        ({
            let base = old(info).base as int;
            let va = (base + r.offset) % 0x1_0000_0000_0000_0000;
            if r.rtype == R_RISCV_RELATIVE {
                spec_write_result(
                    *old(info),
                    *final(info),
                    rr,
                    va,
                    (base + r.addend) % 0x1_0000_0000_0000_0000,
                )
            } else if r.rtype == R_RISCV_64 || r.rtype == R_RISCV_JUMP_SLOT {
                if r.sym >= syms@.len() {
                    rr == Err::<RelocOutcome, LoadError>(LoadError::BadSymbolIndex)
                        && unchanged_info(*old(info), *final(info))
                } else {
                    match spec_resolve(
                        reg.entries@,
                        *cross,
                        r.rtype,
                        syms@[r.sym as int].name@,
                        syms@[r.sym as int].value,
                        base,
                    ) {
                        None => rr == Err::<RelocOutcome, LoadError>(LoadError::UnresolvedSymbol)
                            && unchanged_info(*old(info), *final(info)),
                        Some(v) => spec_write_result(*old(info), *final(info), rr, va, v),
                    }
                }
            } else {
                rr == Ok::<RelocOutcome, LoadError>(RelocOutcome::Skipped) && unchanged_info(
                    *old(info),
                    *final(info),
                )
            }
        }),
{
    let base = info.base;
    if r.rtype == R_RISCV_RELATIVE {
        let value = (((base as u128) + (r.addend as u128)) % 0x1_0000_0000_0000_0000) as u64;
        return write_patch(info, r.offset, value);
    }
    if r.rtype == R_RISCV_64 || r.rtype == R_RISCV_JUMP_SLOT {
        if (r.sym as usize) >= syms.len() {
            return Err(LoadError::BadSymbolIndex);
        }
        let sym = &syms[r.sym as usize];
        if r.rtype == R_RISCV_JUMP_SLOT {
            if let Some(c) = cross {
                if bytes_eq(c.name.as_slice(), sym.name.as_slice()) {
                    return write_patch(info, r.offset, c.addr as u64);
                }
            }
        }
        if sym.value != 0 {
            let displaced = (((base as u128) + (sym.value as u128))
                % 0x1_0000_0000_0000_0000) as u64;
            return write_patch(info, r.offset, displaced);
        }
        return match reg.lookup(sym.name.as_slice()) {
            Some(a) => write_patch(info, r.offset, a as u64),
            None => Err(LoadError::UnresolvedSymbol),
        };
    }
    Ok(RelocOutcome::Skipped)
}

/// Patches the word at `base + offset` with `value`.
fn write_patch(info: &mut ElfInfo, offset: u64, value: u64) -> (rr: Result<
    RelocOutcome,
    LoadError,
>)
    ensures
        spec_write_result(
            *old(info),
            *final(info),
            rr,
            (old(info).base + offset) % 0x1_0000_0000_0000_0000,
            value as int,
        ),
{
    let base = info.base;
    let va128 = ((base as u128) + (offset as u128)) % 0x1_0000_0000_0000_0000;
    if va128 > (usize::MAX as u128) - 8 {
        return Err(LoadError::RelocationOutOfBounds);
    }
    let va = va128 as usize;
    match info.write_word(va, value) {
        Ok(()) => Ok(RelocOutcome::Applied),
        Err(e) => {
            proof {
                assert(e == LoadError::RelocationOutOfBounds);
            }
            Err(e)
        },
    }
}

/// The address a relocation entry patches.
pub open spec fn rela_target(base: int, r: Rela) -> int {
    (base + r.offset) % 0x1_0000_0000_0000_0000
}

/// The value a relocation entry writes, if it resolves to one.
pub open spec fn rela_value(
    base: int,
    reg: Seq<AbiEntry>,
    syms: Seq<SymEntry>,
    cross: Option<CrossBinding>,
    r: Rela,
) -> Option<int> {
    if r.rtype == R_RISCV_RELATIVE {
        Some((base + r.addend) % 0x1_0000_0000_0000_0000)
    } else if r.rtype == R_RISCV_64 || r.rtype == R_RISCV_JUMP_SLOT {
        if r.sym >= syms.len() {
            None
        } else {
            spec_resolve(reg, cross, r.rtype, syms[r.sym as int].name@, syms[r.sym as int].value, base)
        }
    } else {
        None
    }
}

/// Why one relocation entry faults against the image, if it does.
pub open spec fn rela_fault(
    pre: ElfInfo,
    reg: Seq<AbiEntry>,
    syms: Seq<SymEntry>,
    cross: Option<CrossBinding>,
    r: Rela,
) -> Option<LoadError> {
    let base = pre.base as int;
    let va = rela_target(base, r);
    if r.rtype == R_RISCV_RELATIVE {
        if va > usize::MAX - 8 || find_seg(pre.segments@, va, 8) is None {
            Some(LoadError::RelocationOutOfBounds)
        } else {
            None
        }
    } else if r.rtype == R_RISCV_64 || r.rtype == R_RISCV_JUMP_SLOT {
        if r.sym >= syms.len() {
            Some(LoadError::BadSymbolIndex)
        } else if rela_value(base, reg, syms, cross, r) is None {
            Some(LoadError::UnresolvedSymbol)
        } else if va > usize::MAX - 8 || find_seg(pre.segments@, va, 8) is None {
            Some(LoadError::RelocationOutOfBounds)
        } else {
            None
        }
    } else {
        None
    }
}

/// One fault-free relocation step: a known kind lands its word at its
/// target, an unknown kind leaves the image as it stands.
pub open spec fn rela_step(
    pre: ElfInfo,
    post: ElfInfo,
    reg: Seq<AbiEntry>,
    syms: Seq<SymEntry>,
    cross: Option<CrossBinding>,
    r: Rela,
) -> bool {
    let base = pre.base as int;
    &&& rela_fault(pre, reg, syms, cross, r) is None
    &&& if r.rtype == R_RISCV_RELATIVE || r.rtype == R_RISCV_64 || r.rtype
        == R_RISCV_JUMP_SLOT {
        word_written(
            pre,
            post,
            rela_target(base, r),
            rela_value(base, reg, syms, cross, r)->Some_0,
        )
    } else {
        unchanged_info(pre, post)
    }
}

/// `post` is `pre` after the whole relocation table, applied in order.
pub open spec fn relocs_applied(
    pre: ElfInfo,
    post: ElfInfo,
    reg: Seq<AbiEntry>,
    syms: Seq<SymEntry>,
    cross: Option<CrossBinding>,
    relas: Seq<Rela>,
) -> bool
    decreases relas.len(),
{
    if relas.len() == 0 {
        unchanged_info(pre, post)
    } else {
        exists|mid: ElfInfo|
            #![auto]
            relocs_applied(pre, mid, reg, syms, cross, relas.drop_last()) && rela_step(
                mid,
                post,
                reg,
                syms,
                cross,
                relas.last(),
            )
    }
}

/// Segments keep their count, places and sizes, and the base and entry
/// stand.
pub open spec fn shape_preserved(pre: ElfInfo, post: ElfInfo) -> bool {
    &&& post.base == pre.base
    &&& post.entry == pre.entry
    &&& post.segments@.len() == pre.segments@.len()
    &&& forall|k: int|
        0 <= k < pre.segments@.len() ==> #[trigger] same_shape(post.segments@[k], pre.segments@[k])
}

/// A relocation step never moves or resizes a segment.
pub proof fn lemma_step_shape(
    pre: ElfInfo,
    post: ElfInfo,
    reg: Seq<AbiEntry>,
    syms: Seq<SymEntry>,
    cross: Option<CrossBinding>,
    r: Rela,
)
    requires
        rela_step(pre, post, reg, syms, cross, r) || unchanged_info(pre, post),
    ensures
        shape_preserved(pre, post),
{
    assert forall|k: int| 0 <= k < pre.segments@.len() implies #[trigger] same_shape(
        post.segments@[k],
        pre.segments@[k],
    ) by {}
}

/// Shape preservation composes.
pub proof fn lemma_shape_trans(a: ElfInfo, b: ElfInfo, c: ElfInfo)
    requires
        shape_preserved(a, b),
        shape_preserved(b, c),
    ensures
        shape_preserved(a, c),
{
    assert forall|k: int| 0 <= k < a.segments@.len() implies #[trigger] same_shape(
        c.segments@[k],
        a.segments@[k],
    ) by {
        assert(same_shape(b.segments@[k], a.segments@[k]));
        assert(same_shape(c.segments@[k], b.segments@[k]));
    }
}

/// Whether an entry faults depends on the image only through its base and
/// its segment shapes, which relocation never changes.
pub proof fn lemma_rela_fault_shape(
    p1: ElfInfo,
    p2: ElfInfo,
    reg: Seq<AbiEntry>,
    syms: Seq<SymEntry>,
    cross: Option<CrossBinding>,
    r: Rela,
)
    requires
        shape_preserved(p1, p2),
    ensures
        rela_fault(p1, reg, syms, cross, r) == rela_fault(p2, reg, syms, cross, r),
{
    assert forall|k: int| 0 <= k < p2.segments@.len() implies #[trigger] same_shape(
        p2.segments@[k],
        p1.segments@[k],
    ) by {}
    crate::elf::lemma_find_seg_same_shape(
        p2.segments@,
        p1.segments@,
        rela_target(p1.base as int, r),
        8,
        0,
    );
}

/// The first fault among the entries from `idx` on, all judged against one
/// image (legitimate, because relocation preserves every segment's shape).
pub open spec fn first_rela_fault(
    pre: ElfInfo,
    reg: Seq<AbiEntry>,
    syms: Seq<SymEntry>,
    cross: Option<CrossBinding>,
    relas: Seq<Rela>,
    idx: int,
) -> Option<LoadError>
    decreases relas.len() - idx,
{
    if !(0 <= idx < relas.len()) {
        None
    } else if rela_fault(pre, reg, syms, cross, relas[idx]) is Some {
        rela_fault(pre, reg, syms, cross, relas[idx])
    } else {
        first_rela_fault(pre, reg, syms, cross, relas, idx + 1)
    }
}

/// Applies a relocation table to the image in order. Succeeds exactly when
/// no entry faults; on the first fault it stops with that error. Either way
/// every segment keeps its place and size.
#[verifier::loop_isolation(false)]
pub fn apply_relocations(
    info: &mut ElfInfo,
    reg: &AbiRegistry,
    syms: &Vec<SymEntry>,
    cross: &Option<CrossBinding>,
    relas: &Vec<Rela>,
) -> (rr: Result<(), LoadError>)
    ensures
        shape_preserved(*old(info), *final(info)),
        ({
            match first_rela_fault(*old(info), reg.entries@, syms@, *cross, relas@, 0) {
                Some(e) => rr == Err::<(), LoadError>(e),
                None => rr == Ok::<(), LoadError>(()) && relocs_applied(
                    *old(info),
                    *final(info),
                    reg.entries@,
                    syms@,
                    *cross,
                    relas@,
                ),
            }
        }),
{
    let ghost pre = *info;
    let count = relas.len();
    let mut i: usize = 0;
    proof {
        assert(relas@.subrange(0, 0) =~= Seq::<Rela>::empty());
        assert(unchanged_info(pre, pre));
        assert(shape_preserved(pre, pre));
    }
    while i < count
        invariant
            i <= count,
            shape_preserved(pre, *info),
            relocs_applied(pre, *info, reg.entries@, syms@, *cross, relas@.subrange(0, i as int)),
            first_rela_fault(pre, reg.entries@, syms@, *cross, relas@, 0) == first_rela_fault(
                pre,
                reg.entries@,
                syms@,
                *cross,
                relas@,
                i as int,
            ),
        decreases count - i,
    {
        let ghost cur = *info;
        let outcome = apply_rela(info, reg, syms, cross, &relas[i]);
        proof {
            lemma_rela_fault_shape(pre, cur, reg.entries@, syms@, *cross, relas@[i as int]);
        }
        match outcome {
            Ok(_) => {
                proof {
                    assert(rela_fault(cur, reg.entries@, syms@, *cross, relas@[i as int]) is None);
                    assert(rela_step(cur, *info, reg.entries@, syms@, *cross, relas@[i as int]));
                    let sub1 = relas@.subrange(0, i + 1);
                    assert(sub1.drop_last() =~= relas@.subrange(0, i as int));
                    assert(sub1.last() == relas@[i as int]);
                    assert(relocs_applied(pre, cur, reg.entries@, syms@, *cross, sub1.drop_last())
                        && rela_step(cur, *info, reg.entries@, syms@, *cross, sub1.last()));
                    assert(exists|mid: ElfInfo|
                        #![auto]
                        relocs_applied(pre, mid, reg.entries@, syms@, *cross, sub1.drop_last())
                            && rela_step(mid, *info, reg.entries@, syms@, *cross, sub1.last()));
                    assert(relocs_applied(pre, *info, reg.entries@, syms@, *cross, sub1));
                    lemma_step_shape(cur, *info, reg.entries@, syms@, *cross, relas@[i as int]);
                    lemma_shape_trans(pre, cur, *info);
                }
            },
            Err(e) => {
                proof {
                    assert(rela_fault(cur, reg.entries@, syms@, *cross, relas@[i as int]) == Some(
                        e,
                    ));
                    assert(first_rela_fault(pre, reg.entries@, syms@, *cross, relas@, i as int)
                        == Some(e));
                }
                return Err(e);
            },
        }
        i = i + 1;
    }
    proof {
        assert(relas@.subrange(0, count as int) =~= relas@);
    }
    Ok(())
}

} // verus!
