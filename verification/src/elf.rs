//! ELF64 parsing and loading: header verification, program-header parsing,
//! base computation, and segment extraction into an in-memory image. The
//! image is byte-addressable through bounds-checked word reads and writes,
//! so a malformed ELF can never corrupt unrelated memory.

use vstd::prelude::*;
use crate::bytes::{le16_at, le32_at, le64_at, read_u16_at, read_u32_at, read_u64_at};

verus! {

/// Size of an ELF64 file header.
pub const ELF_HEADER_LEN: usize = 64;

/// Size of one ELF64 program header.
pub const PHDR_LEN: usize = 56;

/// Object type of a statically addressed executable.
pub const ET_EXEC: u16 = 2;

/// Object type of a position-independent (shared object) executable.
pub const ET_DYN: u16 = 3;

/// Program-header type of a loadable segment.
pub const PT_LOAD: u32 = 1;

/// Machine tag of RISC-V images, the architecture this loader hosts.
pub const EM_RISCV: u16 = 243;

/// A structural problem with an ELF image. Every malformed input surfaces
/// as one of these; a load aborts on the first failure with no partial
/// effect.
#[derive(Clone, Copy, Debug, PartialEq, Eq, Structural)]
pub enum LoadError {
    /// The file is shorter than an ELF64 header.
    TruncatedHeader,
    /// The four magic bytes are wrong.
    BadMagic,
    /// Not a 64-bit image.
    UnsupportedClass,
    /// Not a little-endian image.
    UnsupportedEndianness,
    /// The image targets another architecture than the host.
    WrongMachine,
    /// The ELF version field is not 1.
    BadVersion,
    /// The image declares no program headers.
    NoProgramHeaders,
    /// The entry point is zero.
    ZeroEntry,
    /// The program-header table offset is zero.
    ZeroPhoff,
    /// The program-header entry size is not that of ELF64.
    BadPhentsize,
    /// The program-header table runs past the end of the file.
    TruncatedProgramHeaders,
    /// The image has no loadable segment.
    NoLoadSegments,
    /// A statically addressed executable whose first loadable segment sits
    /// at virtual address zero leaves the load base ambiguous.
    AmbiguousBase,
    /// The object type is neither an executable nor a shared object.
    UnsupportedType,
    /// A segment's file range runs past the end of the file.
    SegmentOutOfFile,
    /// A segment's memory size is smaller than its file size.
    BadSegmentSize,
    /// A segment or the entry point does not fit in the address space.
    AddressOverflow,
    /// A relocation writes outside every loaded segment.
    RelocationOutOfBounds,
    /// A relocation names a symbol index outside the symbol table.
    BadSymbolIndex,
    /// A needed symbol is neither locally defined nor registered.
    UnresolvedSymbol,
    /// The relocation table runs past the end of its bytes.
    TruncatedRelocations,
    /// The symbol table or a symbol name runs past the end of its bytes.
    TruncatedSymbols,
}

/// The fields of an ELF64 header that the loader consumes.
#[derive(Clone, Copy, Debug, PartialEq, Eq, Structural)]
pub struct ElfHeader {
    pub etype: u16,
    pub machine: u16,
    pub version: u32,
    pub entry: u64,
    pub phoff: u64,
    pub phentsize: u16,
    pub phnum: u16,
}

/// One ELF64 program header, as far as the loader consumes it.
#[derive(Clone, Copy, Debug, PartialEq, Eq, Structural)]
pub struct Phdr {
    pub ptype: u32,
    pub flags: u32,
    pub offset: u64,
    pub vaddr: u64,
    pub filesz: u64,
    pub memsz: u64,
}

/// The file starts with the ELF magic bytes.
pub open spec fn magic_ok(s: Seq<u8>) -> bool {
    s[0] == 0x7f && s[1] == 0x45 && s[2] == 0x4c && s[3] == 0x46
}

/// The header fields as they sit in the file bytes.
pub open spec fn spec_header(s: Seq<u8>) -> ElfHeader {
    ElfHeader {
        etype: le16_at(s, 16) as u16,
        machine: le16_at(s, 18) as u16,
        version: le32_at(s, 20) as u32,
        entry: le64_at(s, 24) as u64,
        phoff: le64_at(s, 32) as u64,
        phentsize: le16_at(s, 54) as u16,
        phnum: le16_at(s, 56) as u16,
    }
}

/// Header verification: magic, class, endianness, architecture match,
/// version one, a nonzero program-header count, a nonzero entry point and
/// a nonzero program-header offset; the first failure decides the error.
pub open spec fn spec_parse_header(s: Seq<u8>, expected_machine: u16) -> Result<
    ElfHeader,
    LoadError,
> {
    if s.len() < ELF_HEADER_LEN {
        Err(LoadError::TruncatedHeader)
    } else if !magic_ok(s) {
        Err(LoadError::BadMagic)
    } else if s[4] != 2 {
        Err(LoadError::UnsupportedClass)
    } else if s[5] != 1 {
        Err(LoadError::UnsupportedEndianness)
    } else if spec_header(s).machine != expected_machine {
        Err(LoadError::WrongMachine)
    } else if spec_header(s).version != 1 {
        Err(LoadError::BadVersion)
    } else if spec_header(s).phnum == 0 {
        Err(LoadError::NoProgramHeaders)
    } else if spec_header(s).entry == 0 {
        Err(LoadError::ZeroEntry)
    } else if spec_header(s).phoff == 0 {
        Err(LoadError::ZeroPhoff)
    } else {
        Ok(spec_header(s))
    }
}

/// Parses and verifies the ELF64 header of `file`.
pub fn parse_header(file: &[u8], expected_machine: u16) -> (r: Result<ElfHeader, LoadError>)
    ensures
        r == spec_parse_header(file@, expected_machine),
{
    if file.len() < ELF_HEADER_LEN {
        return Err(LoadError::TruncatedHeader);
    }
    if file[0] != 0x7f || file[1] != 0x45 || file[2] != 0x4c || file[3] != 0x46 {
        return Err(LoadError::BadMagic);
    }
    if file[4] != 2 {
        return Err(LoadError::UnsupportedClass);
    }
    if file[5] != 1 {
        return Err(LoadError::UnsupportedEndianness);
    }
    let h = ElfHeader {
        etype: read_u16_at(file, 16),
        machine: read_u16_at(file, 18),
        version: read_u32_at(file, 20),
        entry: read_u64_at(file, 24),
        phoff: read_u64_at(file, 32),
        phentsize: read_u16_at(file, 54),
        phnum: read_u16_at(file, 56),
    };
    proof {
        assert(h == spec_header(file@));
    }
    if h.machine != expected_machine {
        return Err(LoadError::WrongMachine);
    }
    if h.version != 1 {
        return Err(LoadError::BadVersion);
    }
    if h.phnum == 0 {
        return Err(LoadError::NoProgramHeaders);
    }
    if h.entry == 0 {
        return Err(LoadError::ZeroEntry);
    }
    if h.phoff == 0 {
        return Err(LoadError::ZeroPhoff);
    }
    Ok(h)
}

/// The program header sitting at byte offset `off` of the file.
pub open spec fn spec_phdr(s: Seq<u8>, off: int) -> Phdr {
    Phdr {
        ptype: le32_at(s, off) as u32,
        flags: le32_at(s, off + 4) as u32,
        offset: le64_at(s, off + 8) as u64,
        vaddr: le64_at(s, off + 16) as u64,
        filesz: le64_at(s, off + 32) as u64,
        memsz: le64_at(s, off + 40) as u64,
    }
}

/// The program-header table of a verified header: ELF64-sized entries that
/// must all lie inside the file.
pub open spec fn spec_parse_phdrs(s: Seq<u8>, h: ElfHeader) -> Result<Seq<Phdr>, LoadError> {
    if h.phentsize != PHDR_LEN {
        Err(LoadError::BadPhentsize)
    } else if h.phoff + h.phnum * (PHDR_LEN as int) > s.len() {
        Err(LoadError::TruncatedProgramHeaders)
    } else {
        Ok(Seq::new(h.phnum as nat, |i: int| spec_phdr(s, h.phoff + i * (PHDR_LEN as int))))
    }
}

/// Parses the program-header table described by `h`.
#[verifier::loop_isolation(false)]
pub fn parse_phdrs(file: &[u8], h: &ElfHeader) -> (r: Result<Vec<Phdr>, LoadError>)
    ensures
        ({
            match spec_parse_phdrs(file@, *h) {
                Err(e) => r == Err::<Vec<Phdr>, LoadError>(e),
                Ok(q) => r matches Ok(v) && v@ == q,
            }
        }),
{
    if h.phentsize as usize != PHDR_LEN {
        return Err(LoadError::BadPhentsize);
    }
    let file_len = file.len();
    if (h.phoff as u128) + (h.phnum as u128) * (PHDR_LEN as u128) > (file_len as u128) {
        return Err(LoadError::TruncatedProgramHeaders);
    }
    let phoff = h.phoff as usize;
    let phnum = h.phnum as usize;
    let ghost q = spec_parse_phdrs(file@, *h)->Ok_0;
    let mut v: Vec<Phdr> = Vec::new();
    let mut i: usize = 0;
    while i < phnum
        invariant
            file_len == file@.len(),
            phoff == h.phoff,
            phnum == h.phnum,
            phoff + phnum * PHDR_LEN <= file_len,
            i <= phnum,
            v@.len() == i,
            q.len() == phnum,
            forall|k: int| 0 <= k < i ==> v@[k] == q[k],
        decreases phnum - i,
    {
        let base = phoff + i * PHDR_LEN;
        proof {
            assert(i * (PHDR_LEN as int) + PHDR_LEN <= phnum * (PHDR_LEN as int)) by (
            nonlinear_arith)
                requires
                    i < phnum,
            ;
        }
        let p = Phdr {
            ptype: read_u32_at(file, base),
            flags: read_u32_at(file, base + 4),
            offset: read_u64_at(file, base + 8),
            vaddr: read_u64_at(file, base + 16),
            filesz: read_u64_at(file, base + 32),
            memsz: read_u64_at(file, base + 40),
        };
        proof {
            let off = h.phoff + (i as int) * (PHDR_LEN as int);
            assert(p == spec_phdr(file@, off));
            assert(p == q[i as int]);
        }
        v.push(p);
        i = i + 1;
    }
    proof {
        assert(v@ =~= q);
    }
    Ok(v)
}

/// A statically addressed executable keeps its own addresses (offset zero);
/// a position-independent image is placed at the caller-supplied base. An
/// executable whose first loadable segment sits at address zero is
/// rejected: its base would be ambiguous.
pub open spec fn spec_compute_base(etype: u16, first_load_vaddr: u64, supplied: usize) -> Result<
    usize,
    LoadError,
> {
    if etype == ET_DYN {
        Ok(supplied)
    } else if etype == ET_EXEC {
        if first_load_vaddr == 0 {
            Err(LoadError::AmbiguousBase)
        } else {
            Ok(0)
        }
    } else {
        Err(LoadError::UnsupportedType)
    }
}

/// Chooses the load base for an image.
pub fn compute_base(etype: u16, first_load_vaddr: u64, supplied: usize) -> (r: Result<
    usize,
    LoadError,
>)
    ensures
        r == spec_compute_base(etype, first_load_vaddr, supplied),
{
    if etype == ET_DYN {
        Ok(supplied)
    } else if etype == ET_EXEC {
        if first_load_vaddr == 0 {
            Err(LoadError::AmbiguousBase)
        } else {
            Ok(0)
        }
    } else {
        Err(LoadError::UnsupportedType)
    }
}

/// A loadable segment placed in memory: `data` holds its full memory size,
/// file bytes first, zero fill after.
pub struct ElfSegment {
    pub vaddr: usize,
    pub flags: u32,
    pub data: Vec<u8>,
}

/// Why a program header cannot be extracted at `base`, if it cannot.
pub open spec fn seg_check(file_len: int, p: Phdr, base: int) -> Option<LoadError> {
    if p.memsz < p.filesz {
        Some(LoadError::BadSegmentSize)
    } else if p.offset + p.filesz > file_len {
        Some(LoadError::SegmentOutOfFile)
    } else if base + p.vaddr + p.memsz > usize::MAX {
        Some(LoadError::AddressOverflow)
    } else {
        None
    }
}

/// `seg` is the segment of `p` loaded at `base`: memory at
/// `[vaddr, vaddr+filesz)` equals the file bytes at `[offset,
/// offset+filesz)`, and `[vaddr+filesz, vaddr+memsz)` is all zero.
pub open spec fn segment_loaded(file: Seq<u8>, p: Phdr, base: int, seg: ElfSegment) -> bool {
    &&& seg.vaddr == base + p.vaddr
    &&& seg.flags == p.flags
    &&& seg.data@.len() == p.memsz
    &&& forall|i: int| 0 <= i < p.filesz ==> seg.data@[i] == file[p.offset + i]
    &&& forall|i: int| p.filesz <= i < p.memsz ==> seg.data@[i] == 0
}

/// Copies the file bytes of `p` and zero-fills the remainder, after
/// validating the bounds of both the file range and the destination.
#[verifier::loop_isolation(false)]
pub fn extract_segment(file: &[u8], p: &Phdr, base: usize) -> (r: Result<ElfSegment, LoadError>)
    ensures
        ({
            match seg_check(file@.len() as int, *p, base as int) {
                Some(e) => r == Err::<ElfSegment, LoadError>(e),
                None => r matches Ok(seg) && segment_loaded(file@, *p, base as int, seg),
            }
        }),
{
    if p.memsz < p.filesz {
        return Err(LoadError::BadSegmentSize);
    }
    let file_len = file.len();
    if (p.offset as u128) + (p.filesz as u128) > (file_len as u128) {
        return Err(LoadError::SegmentOutOfFile);
    }
    if (base as u128) + (p.vaddr as u128) + (p.memsz as u128) > (usize::MAX as u128) {
        return Err(LoadError::AddressOverflow);
    }
    let offset = p.offset as usize;
    let filesz = p.filesz as usize;
    let memsz = p.memsz as usize;
    let mut data: Vec<u8> = Vec::new();
    let mut i: usize = 0;
    while i < filesz
        invariant
            file_len == file@.len(),
            offset == p.offset,
            filesz == p.filesz,
            offset + filesz <= file_len,
            i <= filesz,
            data@.len() == i,
            forall|k: int| 0 <= k < i ==> data@[k] == file@[offset + k],
        decreases filesz - i,
    {
        data.push(file[offset + i]);
        i = i + 1;
    }
    while i < memsz
        invariant
            offset == p.offset,
            filesz == p.filesz,
            memsz == p.memsz,
            file_len == file@.len(),
            offset + filesz <= file_len,
            filesz <= i <= memsz,
            data@.len() == i,
            forall|k: int| 0 <= k < filesz ==> data@[k] == file@[offset + k],
            forall|k: int| filesz <= k < i ==> data@[k] == 0,
        decreases memsz - i,
    {
        data.push(0);
        i = i + 1;
    }
    Ok(ElfSegment { vaddr: base + (p.vaddr as usize), flags: p.flags, data })
}

/// Whether a program header describes a loadable segment.
pub open spec fn is_load(p: Phdr) -> bool {
    p.ptype == PT_LOAD
}

/// The loadable program headers, in file order.
pub open spec fn load_phdrs(ps: Seq<Phdr>) -> Seq<Phdr> {
    ps.filter(|p: Phdr| is_load(p))
}

/// The first extraction error among the loadable segments, if any.
pub open spec fn first_seg_error_from(file_len: int, loads: Seq<Phdr>, base: int, idx: int) -> Option<
    LoadError,
>
    decreases loads.len() - idx,
{
    if !(0 <= idx < loads.len()) {
        None
    } else if seg_check(file_len, loads[idx], base) is Some {
        seg_check(file_len, loads[idx], base)
    } else {
        first_seg_error_from(file_len, loads, base, idx + 1)
    }
}

/// The loaded image: its base offset, its relocated entry point, and its
/// segments, byte-addressable for relocation.
pub struct ElfInfo {
    pub base: usize,
    pub entry: usize,
    pub segments: Vec<ElfSegment>,
}

/// What a successful load gives: header and program headers verified, base
/// chosen from the first loadable segment, the entry point displaced by the
/// base, and every loadable segment placed with its file bytes followed by
/// zero fill.
pub open spec fn load_ok(s: Seq<u8>, expected_machine: u16, supplied_base: usize, info: ElfInfo) -> bool {
    &&& spec_parse_header(s, expected_machine) matches Ok(h) && {
        &&& spec_parse_phdrs(s, h) matches Ok(ps) && {
            let loads = load_phdrs(ps);
            &&& loads.len() > 0
            &&& spec_compute_base(h.etype, loads[0].vaddr, supplied_base) == Ok::<usize, LoadError>(info.base)
            &&& info.entry == info.base + h.entry
            &&& info.segments@.len() == loads.len()
            &&& forall|j: int|
                0 <= j < loads.len() ==> segment_loaded(s, loads[j], info.base as int, #[trigger] info.segments@[j])
        }
    }
}

/// Loads an ELF image: verifies the header, parses the program headers,
/// chooses the base, extracts every loadable segment and relocates the
/// entry point. Fails on the first structural problem with a typed error
/// and no partial result.
#[verifier::loop_isolation(false)]
pub fn load_elf(file: &[u8], expected_machine: u16, supplied_base: usize) -> (r: Result<
    ElfInfo,
    LoadError,
>)
    ensures
        ({
            match spec_parse_header(file@, expected_machine) {
                Err(e) => r == Err::<ElfInfo, LoadError>(e),
                Ok(h) => match spec_parse_phdrs(file@, h) {
                    Err(e) => r == Err::<ElfInfo, LoadError>(e),
                    Ok(ps) => {
                        let loads = load_phdrs(ps);
                        if loads.len() == 0 {
                            r == Err::<ElfInfo, LoadError>(LoadError::NoLoadSegments)
                        } else {
                            match spec_compute_base(h.etype, loads[0].vaddr, supplied_base) {
                                Err(e) => r == Err::<ElfInfo, LoadError>(e),
                                Ok(base) => {
                                    if base + h.entry > usize::MAX {
                                        r == Err::<ElfInfo, LoadError>(LoadError::AddressOverflow)
                                    } else {
                                        match first_seg_error_from(file@.len() as int, loads, base as int, 0) {
                                            Some(e) => r == Err::<ElfInfo, LoadError>(e),
                                            None => r matches Ok(info) && load_ok(
                                                file@,
                                                expected_machine,
                                                supplied_base,
                                                info,
                                            ) && info.base == base,
                                        }
                                    }
                                },
                            }
                        }
                    },
                },
            }
        }),
{
    let h = match parse_header(file, expected_machine) {
        Ok(h) => h,
        Err(e) => {
            return Err(e);
        },
    };
    let phdrs = match parse_phdrs(file, &h) {
        Ok(v) => v,
        Err(e) => {
            return Err(e);
        },
    };
    let ghost ps = phdrs@;
    let mut loads: Vec<Phdr> = Vec::new();
    let mut i: usize = 0;
    proof {
        assert(ps.subrange(0, 0) =~= Seq::<Phdr>::empty());
        reveal(Seq::filter);
    }
    while i < phdrs.len()
        invariant
            ps == phdrs@,
            i <= ps.len(),
            loads@ == ps.subrange(0, i as int).filter(|p: Phdr| is_load(p)),
        decreases ps.len() - i,
    {
        proof {
            reveal(Seq::filter);
            assert(ps.subrange(0, i + 1).drop_last() =~= ps.subrange(0, i as int));
            assert(ps.subrange(0, i + 1).last() == ps[i as int]);
        }
        if phdrs[i].ptype == PT_LOAD {
            loads.push(phdrs[i]);
        }
        i = i + 1;
    }
    proof {
        assert(ps.subrange(0, ps.len() as int) =~= ps);
        assert(loads@ == load_phdrs(ps));
    }
    if loads.len() == 0 {
        return Err(LoadError::NoLoadSegments);
    }
    let base = match compute_base(h.etype, loads[0].vaddr, supplied_base) {
        Ok(b) => b,
        Err(e) => {
            return Err(e);
        },
    };
    if (base as u128) + (h.entry as u128) > (usize::MAX as u128) {
        return Err(LoadError::AddressOverflow);
    }
    let entry = base + (h.entry as usize);
    let mut segments: Vec<ElfSegment> = Vec::new();
    let mut j: usize = 0;
    while j < loads.len()
        invariant
            loads@ == load_phdrs(ps),
            j <= loads@.len(),
            segments@.len() == j,
            forall|k: int|
                0 <= k < j ==> segment_loaded(file@, loads@[k], base as int, #[trigger] segments@[k]),
            forall|k: int| 0 <= k < j ==> seg_check(file@.len() as int, loads@[k], base as int) is None,
            first_seg_error_from(file@.len() as int, loads@, base as int, 0)
                == first_seg_error_from(file@.len() as int, loads@, base as int, j as int),
        decreases loads@.len() - j,
    {
        match extract_segment(file, &loads[j], base) {
            Ok(seg) => {
                segments.push(seg);
            },
            Err(e) => {
                proof {
                    assert(first_seg_error_from(file@.len() as int, loads@, base as int, j as int)
                        == Some(e));
                }
                return Err(e);
            },
        }
        j = j + 1;
    }
    Ok(ElfInfo { base, entry, segments })
}

/// Auxiliary-vector tags handed to a fresh process.
pub const AT_NULL: u64 = 0;

/// Tag of the program-header table's address.
pub const AT_PHDR: u64 = 3;

/// Tag of the size of one program header.
pub const AT_PHENT: u64 = 4;

/// Tag of the number of program headers.
pub const AT_PHNUM: u64 = 5;

/// Tag of the page size.
pub const AT_PAGESZ: u64 = 6;

/// Tag of the entry point.
pub const AT_ENTRY: u64 = 9;

/// The auxiliary vector of a loaded image: where its program headers sit,
/// their shape, the page size and the relocated entry point, closed by the
/// null tag.
pub fn build_auxv(h: &ElfHeader, base: usize) -> (r: Vec<(u64, u64)>)
    requires
        base + h.phoff <= u64::MAX,
        base + h.entry <= u64::MAX,
    ensures
        r@ == seq![
            (AT_PHDR, (base + h.phoff) as u64),
            (AT_PHENT, PHDR_LEN as u64),
            (AT_PHNUM, h.phnum as u64),
            (AT_PAGESZ, crate::phys::PAGE_SIZE as u64),
            (AT_ENTRY, (base + h.entry) as u64),
            (AT_NULL, 0u64),
        ],
{
    let mut r: Vec<(u64, u64)> = Vec::new();
    r.push((AT_PHDR, (base as u64) + h.phoff));
    r.push((AT_PHENT, PHDR_LEN as u64));
    r.push((AT_PHNUM, h.phnum as u64));
    r.push((AT_PAGESZ, crate::phys::PAGE_SIZE as u64));
    r.push((AT_ENTRY, (base as u64) + h.entry));
    r.push((AT_NULL, 0));
    proof {
        assert(r@ =~= seq![
            (AT_PHDR, (base + h.phoff) as u64),
            (AT_PHENT, PHDR_LEN as u64),
            (AT_PHNUM, h.phnum as u64),
            (AT_PAGESZ, crate::phys::PAGE_SIZE as u64),
            (AT_ENTRY, (base + h.entry) as u64),
            (AT_NULL, 0u64),
        ]);
    }
    r
}

/// Whether `[va, va + n)` lies inside `seg`.
pub open spec fn seg_contains(seg: ElfSegment, va: int, n: int) -> bool {
    seg.vaddr <= va && va + n <= seg.vaddr + seg.data@.len()
}

/// The first segment, from `idx` on, that contains `[va, va + n)`.
pub open spec fn find_seg_from(segs: Seq<ElfSegment>, va: int, n: int, idx: int) -> Option<int>
    decreases segs.len() - idx,
{
    if !(0 <= idx < segs.len()) {
        None
    } else if seg_contains(segs[idx], va, n) {
        Some(idx)
    } else {
        find_seg_from(segs, va, n, idx + 1)
    }
}

/// The first segment of the image containing `[va, va + n)`.
pub open spec fn find_seg(segs: Seq<ElfSegment>, va: int, n: int) -> Option<int> {
    find_seg_from(segs, va, n, 0)
}

/// The 64-bit word the image holds at `va`, read little-endian out of the
/// segment containing it (zero if none does).
pub open spec fn image_u64_at(info: ElfInfo, va: int) -> int {
    match find_seg(info.segments@, va, 8) {
        Some(j) => le64_at(info.segments@[j].data@, va - info.segments@[j].vaddr),
        None => 0,
    }
}

/// Two segments sit at the same place with the same size.
pub open spec fn same_shape(a: ElfSegment, b: ElfSegment) -> bool {
    a.vaddr == b.vaddr && a.data@.len() == b.data@.len()
}

/// Which segment contains a range is decided by segment places and sizes
/// alone, not by their bytes.
pub proof fn lemma_find_seg_same_shape(
    s1: Seq<ElfSegment>,
    s2: Seq<ElfSegment>,
    va: int,
    n: int,
    idx: int,
)
    requires
        s1.len() == s2.len(),
        forall|j: int| 0 <= j < s1.len() ==> #[trigger] same_shape(s1[j], s2[j]),
    ensures
        find_seg_from(s1, va, n, idx) == find_seg_from(s2, va, n, idx),
    decreases s1.len() - idx,
{
    if 0 <= idx < s1.len() {
        assert(same_shape(s1[idx], s2[idx]));
        assert(seg_contains(s1[idx], va, n) == seg_contains(s2[idx], va, n));
        if !seg_contains(s1[idx], va, n) {
            lemma_find_seg_same_shape(s1, s2, va, n, idx + 1);
        }
    }
}

impl ElfInfo {
    /// Finds the segment holding `[va, va + n)`, if any.
    pub fn find_segment(&self, va: usize, n: usize) -> (r: Option<usize>)
        ensures
            ({
                match r {
                    Some(u) => find_seg(self.segments@, va as int, n as int) == Some(u as int) && u
                        < self.segments@.len() && seg_contains(
                        self.segments@[u as int],
                        va as int,
                        n as int,
                    ),
                    None => find_seg(self.segments@, va as int, n as int) is None,
                }
            }),
    {
        let count = self.segments.len();
        let mut idx: usize = 0;
        while idx < count
            invariant
                count == self.segments@.len(),
                idx <= count,
                find_seg(self.segments@, va as int, n as int) == find_seg_from(
                    self.segments@,
                    va as int,
                    n as int,
                    idx as int,
                ),
            decreases count - idx,
        {
            let seg = &self.segments[idx];
            let len = seg.data.len();
            if seg.vaddr <= va && n <= len && va - seg.vaddr <= len - n {
                proof {
                    assert(seg_contains(self.segments@[idx as int], va as int, n as int));
                }
                return Some(idx);
            }
            proof {
                assert(!seg_contains(self.segments@[idx as int], va as int, n as int));
            }
            idx = idx + 1;
        }
        None
    }

    /// Reads the little-endian 64-bit word at virtual address `va`;
    /// out-of-bounds addresses are rejected, never dereferenced.
    pub fn read_word(&self, va: usize) -> (r: Result<u64, LoadError>)
        ensures
            ({
                match find_seg(self.segments@, va as int, 8) {
                    Some(j) => r matches Ok(w) && w as int == image_u64_at(*self, va as int),
                    None => r == Err::<u64, LoadError>(LoadError::RelocationOutOfBounds),
                }
            }),
    {
        match self.find_segment(va, 8) {
            Some(j) => {
                let seg = &self.segments[j];
                let off = va - seg.vaddr;
                proof {
                    crate::bytes::lemma_le64_at_bound(seg.data@, off as int);
                }
                Ok(read_u64_at(seg.data.as_slice(), off))
            },
            None => Err(LoadError::RelocationOutOfBounds),
        }
    }

    /// Writes `v` as a little-endian 64-bit word at virtual address `va`:
    /// a bounds-checked write that changes those eight bytes of the owning
    /// segment and nothing else, or rejects the address.
    pub fn write_word(&mut self, va: usize, v: u64) -> (r: Result<(), LoadError>)
        ensures
            ({
                match find_seg(old(self).segments@, va as int, 8) {
                    None => r == Err::<(), LoadError>(LoadError::RelocationOutOfBounds)
                        && final(self).base == old(self).base
                        && final(self).entry == old(self).entry
                        && final(self).segments@ == old(self).segments@,
                    Some(j) => r == Ok::<(), LoadError>(()) && final(self).base == old(self).base
                        && final(self).entry == old(self).entry && final(self).segments@.len()
                        == old(self).segments@.len() && (forall|k: int|
                        0 <= k < old(self).segments@.len() && k != j
                            ==> #[trigger] final(self).segments@[k] == old(self).segments@[k]) && {
                        let oldseg = old(self).segments@[j];
                        let newseg = final(self).segments@[j];
                        let off = va - oldseg.vaddr;
                        &&& newseg.vaddr == oldseg.vaddr
                        &&& newseg.flags == oldseg.flags
                        &&& newseg.data@.len() == oldseg.data@.len()
                        &&& forall|b: int|
                            0 <= b < oldseg.data@.len() && !(off <= b < off + 8)
                                ==> #[trigger] newseg.data@[b] == oldseg.data@[b]
                        &&& le64_at(newseg.data@, off) == v
                        &&& image_u64_at(*final(self), va as int) == v
                    },
                }
            }),
    {
        match self.find_segment(va, 8) {
            Some(j) => {
                let ghost old_segs = self.segments@;
                let mut seg = self.segments.remove(j);
                let off = va - seg.vaddr;
                crate::bytes::write_u64_at(&mut seg.data, off, v);
                self.segments.insert(j, seg);
                proof {
                    assert(self.segments@ =~= old_segs.update(j as int, self.segments@[j as int]));
                    assert forall|k: int|
                        0 <= k < self.segments@.len() implies #[trigger] same_shape(
                        self.segments@[k],
                        old_segs[k],
                    ) by {}
                    lemma_find_seg_same_shape(self.segments@, old_segs, va as int, 8, 0);
                }
                Ok(())
            },
            None => Err(LoadError::RelocationOutOfBounds),
        }
    }
}

} // verus!
