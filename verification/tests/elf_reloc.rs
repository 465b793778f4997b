//! ELF loading and relocation against hand-built images.

use axloader::abi::AbiRegistry;
use axloader::elf::{
    build_auxv, load_elf, parse_header, ElfInfo, LoadError, ElfSegment, AT_ENTRY, AT_NULL,
    AT_PAGESZ, AT_PHDR, AT_PHENT, AT_PHNUM, EM_RISCV,
};
use axloader::reloc::{
    apply_rela, apply_relocations, parse_rela_table, parse_symbols, CrossBinding, Rela,
    RelocOutcome, SymEntry, R_RISCV_64, R_RISCV_JUMP_SLOT, R_RISCV_RELATIVE,
};

fn put_u16(b: &mut Vec<u8>, off: usize, v: u16) {
    let le = v.to_le_bytes();
    for i in 0..2 {
        b[off + i] = le[i];
    }
}

fn put_u32(b: &mut Vec<u8>, off: usize, v: u32) {
    let le = v.to_le_bytes();
    for i in 0..4 {
        b[off + i] = le[i];
    }
}

fn put_u64(b: &mut Vec<u8>, off: usize, v: u64) {
    let le = v.to_le_bytes();
    for i in 0..8 {
        b[off + i] = le[i];
    }
}

/// A minimal image: ELF64 header, one program header, file size `total`.
fn minimal_elf(etype: u16, entry: u64, vaddr: u64, filesz: u64, memsz: u64, total: usize) -> Vec<u8> {
    let mut b = vec![0u8; total];
    b[0] = 0x7f;
    b[1] = 0x45;
    b[2] = 0x4c;
    b[3] = 0x46;
    b[4] = 2; // 64-bit
    b[5] = 1; // little-endian
    b[6] = 1;
    put_u16(&mut b, 16, etype);
    put_u16(&mut b, 18, 243); // RISC-V
    put_u32(&mut b, 20, 1);
    put_u64(&mut b, 24, entry);
    put_u64(&mut b, 32, 64); // phoff
    put_u16(&mut b, 54, 56); // phentsize
    put_u16(&mut b, 56, 1); // phnum
    // one PT_LOAD phdr at offset 64
    put_u32(&mut b, 64, 1); // p_type
    put_u32(&mut b, 68, 5); // p_flags: R+X
    put_u64(&mut b, 72, 0); // p_offset
    put_u64(&mut b, 80, vaddr);
    put_u64(&mut b, 96, filesz);
    put_u64(&mut b, 104, memsz);
    b
}

#[test]
fn static_elf_loads_at_its_own_address() {
    // a minimal static ELF: one RX segment of 0x1000 bytes at 0x10000000,
    // entry at the base
    let file = minimal_elf(2, 0x10000000, 0x10000000, 0x1000, 0x1000, 0x1000);
    let info = load_elf(&file, EM_RISCV, 0).unwrap();
    assert_eq!(info.entry, 0x10000000);
    assert_eq!(info.base, 0);
    assert_eq!(info.segments.len(), 1);
    assert_eq!(info.segments[0].vaddr, 0x10000000);
    assert_eq!(info.segments[0].data.len(), 0x1000);
    // the first loaded byte equals the file's first byte
    assert_eq!(info.segments[0].data[0], file[0]);
    assert_eq!(info.segments[0].data[0], 0x7f);
}

#[test]
fn loaded_bytes_match_file_and_zero_fill() {
    let mut file = minimal_elf(2, 0x10000000, 0x10000000, 0x200, 0x400, 0x200);
    for i in 120..0x200 {
        file[i] = (i % 251) as u8;
    }
    let info = load_elf(&file, EM_RISCV, 0).unwrap();
    let seg = &info.segments[0];
    assert_eq!(seg.data.len(), 0x400);
    for i in 0..0x200usize {
        assert_eq!(seg.data[i], file[i]);
    }
    for i in 0x200..0x400usize {
        assert_eq!(seg.data[i], 0);
    }
}

#[test]
fn pie_image_is_placed_at_the_supplied_base() {
    let file = minimal_elf(3, 0x100, 0x0, 0x80, 0x80, 0x1000);
    let info = load_elf(&file, EM_RISCV, 0x40000000).unwrap();
    assert_eq!(info.base, 0x40000000);
    assert_eq!(info.entry, 0x40000100);
    assert_eq!(info.segments[0].vaddr, 0x40000000);
}

#[test]
fn header_verification_rejects_malformed_images() {
    let good = minimal_elf(2, 0x10000000, 0x10000000, 0x80, 0x80, 0x1000);

    let short = vec![0x7fu8, 0x45, 0x4c, 0x46];
    assert_eq!(parse_header(&short, EM_RISCV), Err(LoadError::TruncatedHeader));

    let mut bad_magic = good.clone();
    bad_magic[0] = 0;
    assert_eq!(parse_header(&bad_magic, EM_RISCV), Err(LoadError::BadMagic));

    let mut bad_class = good.clone();
    bad_class[4] = 1;
    assert_eq!(parse_header(&bad_class, EM_RISCV), Err(LoadError::UnsupportedClass));

    let mut bad_endian = good.clone();
    bad_endian[5] = 2;
    assert_eq!(parse_header(&bad_endian, EM_RISCV), Err(LoadError::UnsupportedEndianness));

    // architecture must match the host
    let mut other_machine = good.clone();
    put_u16(&mut other_machine, 18, 62);
    assert_eq!(parse_header(&other_machine, EM_RISCV), Err(LoadError::WrongMachine));

    let mut bad_version = good.clone();
    put_u32(&mut bad_version, 20, 2);
    assert_eq!(parse_header(&bad_version, EM_RISCV), Err(LoadError::BadVersion));

    let mut no_phdrs = good.clone();
    put_u16(&mut no_phdrs, 56, 0);
    assert_eq!(parse_header(&no_phdrs, EM_RISCV), Err(LoadError::NoProgramHeaders));

    let mut zero_entry = good.clone();
    put_u64(&mut zero_entry, 24, 0);
    assert_eq!(parse_header(&zero_entry, EM_RISCV), Err(LoadError::ZeroEntry));

    let mut zero_phoff = good.clone();
    put_u64(&mut zero_phoff, 32, 0);
    assert_eq!(parse_header(&zero_phoff, EM_RISCV), Err(LoadError::ZeroPhoff));
}

#[test]
fn executable_with_first_load_at_zero_is_ambiguous() {
    let file = minimal_elf(2, 0x100, 0x0, 0x80, 0x80, 0x1000);
    assert!(matches!(load_elf(&file, EM_RISCV, 0), Err(LoadError::AmbiguousBase)));
}

#[test]
fn segment_past_the_file_end_is_rejected() {
    let file = minimal_elf(2, 0x10000000, 0x10000000, 0x4000, 0x4000, 0x1000);
    assert!(matches!(load_elf(&file, EM_RISCV, 0), Err(LoadError::SegmentOutOfFile)));
}

#[test]
fn memsz_below_filesz_is_rejected() {
    let file = minimal_elf(2, 0x10000000, 0x10000000, 0x400, 0x200, 0x1000);
    assert!(matches!(load_elf(&file, EM_RISCV, 0), Err(LoadError::BadSegmentSize)));
}

#[test]
fn relative_relocation_round_trips() {
    // base B, offset O, addend A: afterwards the word at B+O equals B+A
    let base: usize = 0x40000000;
    let file = minimal_elf(3, 0x100, 0x0, 0x800, 0x800, 0x1000);
    let mut info = load_elf(&file, EM_RISCV, base).unwrap();
    let reg = AbiRegistry::new();
    let syms: Vec<SymEntry> = Vec::new();
    let rela = Rela { offset: 0x100, rtype: R_RISCV_RELATIVE, sym: 0, addend: 0x2345 };
    let outcome = apply_rela(&mut info, &reg, &syms, &None, &rela).unwrap();
    assert_eq!(outcome, RelocOutcome::Applied);
    let word = info.read_word(base + 0x100).unwrap();
    assert_eq!(word, (base as u64) + 0x2345);
}

#[test]
fn plt_slot_binds_to_the_registered_address() {
    // a dynamic image with one jump slot naming "puts", the registry holding
    // ("puts", 0xdeadbeef): afterwards the slot holds 0xdeadbeef
    let base: usize = 0x40000000;
    let file = minimal_elf(3, 0x100, 0x0, 0x800, 0x800, 0x1000);
    let mut info = load_elf(&file, EM_RISCV, base).unwrap();
    let mut reg = AbiRegistry::new();
    assert!(reg.register(b"puts".to_vec(), 0xdeadbeef), "fresh name registers");
    let syms = vec![SymEntry { name: b"puts".to_vec(), value: 0 }];
    let relas = vec![Rela { offset: 0x200, rtype: R_RISCV_JUMP_SLOT, sym: 0, addend: 0 }];
    apply_relocations(&mut info, &reg, &syms, &None, &relas).unwrap();
    assert_eq!(info.read_word(base + 0x200).unwrap(), 0xdeadbeef);
}

#[test]
fn locally_defined_symbols_resolve_without_the_registry() {
    let base: usize = 0x40000000;
    let file = minimal_elf(3, 0x100, 0x0, 0x800, 0x800, 0x1000);
    let mut info = load_elf(&file, EM_RISCV, base).unwrap();
    let reg = AbiRegistry::new();
    let syms = vec![SymEntry { name: b"local".to_vec(), value: 0x321 }];
    let rela = Rela { offset: 0x208, rtype: R_RISCV_64, sym: 0, addend: 0 };
    assert_eq!(apply_rela(&mut info, &reg, &syms, &None, &rela), Ok(RelocOutcome::Applied));
    assert_eq!(info.read_word(base + 0x208).unwrap(), (base as u64) + 0x321);
}

#[test]
fn unresolved_symbols_are_fatal_and_unknown_kinds_are_skipped() {
    let base: usize = 0x40000000;
    let file = minimal_elf(3, 0x100, 0x0, 0x800, 0x800, 0x1000);
    let mut info = load_elf(&file, EM_RISCV, base).unwrap();
    let reg = AbiRegistry::new();
    let syms = vec![SymEntry { name: b"missing".to_vec(), value: 0 }];
    let rela = Rela { offset: 0x208, rtype: R_RISCV_64, sym: 0, addend: 0 };
    assert_eq!(apply_rela(&mut info, &reg, &syms, &None, &rela), Err(LoadError::UnresolvedSymbol));
    let odd = Rela { offset: 0x208, rtype: 77, sym: 0, addend: 0 };
    assert_eq!(apply_rela(&mut info, &reg, &syms, &None, &odd), Ok(RelocOutcome::Skipped));
}

#[test]
fn cross_image_binding_wins_over_the_registry() {
    let base: usize = 0x40000000;
    let file = minimal_elf(3, 0x100, 0x0, 0x800, 0x800, 0x1000);
    let mut info = load_elf(&file, EM_RISCV, base).unwrap();
    let mut reg = AbiRegistry::new();
    assert!(reg.register(b"main".to_vec(), 0x1111));
    let syms = vec![SymEntry { name: b"main".to_vec(), value: 0 }];
    let cross = Some(CrossBinding { name: b"main".to_vec(), addr: 0x2222 });
    let rela = Rela { offset: 0x300, rtype: R_RISCV_JUMP_SLOT, sym: 0, addend: 0 };
    assert_eq!(apply_rela(&mut info, &reg, &syms, &cross, &rela), Ok(RelocOutcome::Applied));
    assert_eq!(info.read_word(base + 0x300).unwrap(), 0x2222);
}

#[test]
fn relocation_outside_every_segment_is_rejected() {
    let base: usize = 0x40000000;
    let file = minimal_elf(3, 0x100, 0x0, 0x800, 0x800, 0x1000);
    let mut info = load_elf(&file, EM_RISCV, base).unwrap();
    let reg = AbiRegistry::new();
    let syms: Vec<SymEntry> = Vec::new();
    let rela = Rela { offset: 0x10000, rtype: R_RISCV_RELATIVE, sym: 0, addend: 0 };
    assert_eq!(
        apply_rela(&mut info, &reg, &syms, &None, &rela),
        Err(LoadError::RelocationOutOfBounds)
    );
}

#[test]
fn rela_and_symbol_tables_parse_from_bytes() {
    // two RELA entries at offset 8
    let mut b = vec![0u8; 8 + 48];
    put_u64(&mut b, 8, 0x100); // r_offset
    put_u64(&mut b, 16, (1u64 << 32) | 3); // sym 1, kind 3
    put_u64(&mut b, 24, 0x77); // addend
    put_u64(&mut b, 32, 0x200);
    put_u64(&mut b, 40, 5);
    put_u64(&mut b, 48, 0);
    let relas = parse_rela_table(&b, 8, 2).unwrap();
    assert_eq!(relas.len(), 2);
    assert_eq!(relas[0], Rela { offset: 0x100, rtype: 3, sym: 1, addend: 0x77 });
    assert_eq!(relas[1], Rela { offset: 0x200, rtype: 5, sym: 0, addend: 0 });
    assert_eq!(parse_rela_table(&b, 8, 3), Err(LoadError::TruncatedRelocations));

    // one symbol naming strtab offset 1, value 0xabc
    let mut symtab = vec![0u8; 24];
    put_u32(&mut symtab, 0, 1);
    put_u64(&mut symtab, 8, 0xabc);
    let strtab = b"\0puts\0".to_vec();
    let syms = parse_symbols(&symtab, 1, &strtab).unwrap();
    assert_eq!(syms.len(), 1);
    assert_eq!(syms[0].name, b"puts".to_vec());
    assert_eq!(syms[0].value, 0xabc);
    // a name that never terminates is refused
    let bad_strtab = b"\0puts".to_vec();
    assert!(parse_symbols(&symtab, 1, &bad_strtab).is_err());
}

#[test]
fn image_words_read_and_write_in_place() {
    let seg = ElfSegment { vaddr: 0x1000, flags: 6, data: vec![0u8; 64] };
    let mut info = ElfInfo { base: 0, entry: 0x1000, segments: vec![seg] };
    info.write_word(0x1010, 0x0102030405060708).unwrap();
    assert_eq!(info.read_word(0x1010).unwrap(), 0x0102030405060708);
    assert_eq!(info.segments[0].data[16], 0x08);
    assert_eq!(info.segments[0].data[23], 0x01);
    assert!(info.read_word(0x2000).is_err());
}

#[test]
fn the_auxiliary_vector_describes_the_placed_image() {
    let file = minimal_elf(3, 0x100, 0x0, 0x80, 0x80, 0x1000);
    let info = load_elf(&file, EM_RISCV, 0x40000000).unwrap();
    let h = parse_header(&file, EM_RISCV).unwrap();
    let auxv = build_auxv(&h, info.base);
    assert_eq!(
        auxv,
        vec![
            (AT_PHDR, 0x40000040),
            (AT_PHENT, 56),
            (AT_PHNUM, 1),
            (AT_PAGESZ, 4096),
            (AT_ENTRY, 0x40000100),
            (AT_NULL, 0),
        ]
    );
}

#[test]
fn the_remaining_structural_faults_each_have_their_input() {
    // a program-header entry size that is not ELF64's
    let mut bad_phentsize = minimal_elf(2, 0x10000000, 0x10000000, 0x80, 0x80, 0x1000);
    put_u16(&mut bad_phentsize, 54, 64);
    assert!(matches!(load_elf(&bad_phentsize, EM_RISCV, 0), Err(LoadError::BadPhentsize)));

    // a program-header table past the end of the file
    let mut truncated_table = minimal_elf(2, 0x10000000, 0x10000000, 0x80, 0x80, 0x1000);
    put_u64(&mut truncated_table, 32, 0xff0);
    assert!(matches!(
        load_elf(&truncated_table, EM_RISCV, 0),
        Err(LoadError::TruncatedProgramHeaders)
    ));

    // no loadable segment at all
    let mut no_load = minimal_elf(2, 0x10000000, 0x10000000, 0x80, 0x80, 0x1000);
    put_u32(&mut no_load, 64, 2);
    assert!(matches!(load_elf(&no_load, EM_RISCV, 0), Err(LoadError::NoLoadSegments)));

    // an object type that is neither an executable nor a shared object
    let mut relocatable = minimal_elf(1, 0x10000000, 0x10000000, 0x80, 0x80, 0x1000);
    put_u16(&mut relocatable, 16, 1);
    assert!(matches!(load_elf(&relocatable, EM_RISCV, 0), Err(LoadError::UnsupportedType)));

    // a segment that cannot fit in the address space
    let mut too_big = minimal_elf(3, 0x100, 0, 0, u64::MAX, 0x1000);
    put_u64(&mut too_big, 96, 0);
    put_u64(&mut too_big, 104, u64::MAX);
    assert!(matches!(load_elf(&too_big, EM_RISCV, 1), Err(LoadError::AddressOverflow)));

    // a relocation naming a symbol outside the table
    let base: usize = 0x40000000;
    let file = minimal_elf(3, 0x100, 0x0, 0x800, 0x800, 0x1000);
    let mut info = load_elf(&file, EM_RISCV, base).unwrap();
    let reg = AbiRegistry::new();
    let syms = vec![SymEntry { name: b"only".to_vec(), value: 1 }];
    let rela = Rela { offset: 0x208, rtype: R_RISCV_64, sym: 5, addend: 0 };
    assert_eq!(apply_rela(&mut info, &reg, &syms, &None, &rela), Err(LoadError::BadSymbolIndex));
}
