//! Runtime loader and process layer of a unikernel-style OS.
//!
//! The crate loads ELF application binaries (static or dynamically linked)
//! into an address space, resolves unresolved symbols against a table of
//! natively implemented runtime functions, and manages per-process virtual
//! memory: region tracking, page-fault-driven lazy allocation, and a fork
//! primitive that duplicates an address space.

pub mod abi;
pub mod area;
pub mod bytes;
pub mod elf;
pub mod judge;
pub mod memory;
pub mod pack;
pub mod phys;
pub mod process;
pub mod reloc;
